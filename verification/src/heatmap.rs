//! Scan-progress visual model: a grid of block states driven by the
//! scan position. The terminal rendering lives outside the library;
//! this is the data it draws.

use vstd::prelude::*;

verus! {

/// One line of the activity log.
#[derive(Debug, Clone)]
pub struct LogEntry {
    pub timestamp: String,
    pub message: String,
}

/// An event for the live dashboard.
#[derive(Debug, Clone)]
pub enum TuiEvent {
    /// Update scan position.
    UpdatePosition { position: u64, bytes_scanned: u64 },
    /// Fragment found at an offset.
    FragmentFound { offset: u64 },
    /// File recovered.
    FileRecovered { filename: String },
    /// Log message.
    LogMessage { message: String },
    /// Scan completed.
    ScanCompleted,
    /// Error occurred.
    Error { message: String },
}

/// Grid of scan-state blocks: 0 unscanned, 1 scanned, 2 found data,
/// 3 hot.
#[derive(Debug)]
pub struct DiskHeatmap {
    pub width: usize,
    pub height: usize,
    pub total_blocks: usize,
    pub blocks: Vec<u8>,
    pub image_path: String,
    pub output_dir: String,
}

impl DiskHeatmap {
    /// The grid shape matches its cells and stays of drawable size.
    pub open spec fn wf(&self) -> bool {
        &&& self.total_blocks == self.width * self.height
        &&& self.blocks@.len() == self.total_blocks
        &&& self.total_blocks <= 0x1000000
    }

    /// A fresh grid of the default size, fully unscanned.
    pub fn new(total_size: u64, image_path: String, output_dir: String) -> (r: Self)
        ensures
            r.wf(),
            r.width == 100,
            r.height == 4,
            forall|i: int| 0 <= i < r.blocks@.len() ==> #[trigger] r.blocks@[i] == 0,
    {
        let width: usize = 100;
        let height: usize = 4;
        let total_blocks: usize = width * height;
        let mut blocks: Vec<u8> = Vec::new();
        let mut i: usize = 0;
        while i < total_blocks
            invariant
                i <= total_blocks,
                blocks@.len() == i,
                forall|k: int| 0 <= k < i ==> #[trigger] blocks@[k] == 0,
            decreases total_blocks - i,
        {
            blocks.push(0);
            i = i + 1;
        }
        DiskHeatmap { width, height, total_blocks, blocks, image_path, output_dir }
    }

    /// Resize the grid; the visual history restarts empty.
    pub fn resize(&mut self, width: usize, height: usize)
        requires
            old(self).wf(),
            width * height <= 0x1000000,
        ensures
            final(self).wf(),
    {
        if width == self.width && height == self.height {
            return;
        }
        proof {
            assert(width * height >= 0) by (nonlinear_arith);
        }
        let new_total: usize = width * height;
        let mut new_blocks: Vec<u8> = Vec::new();
        let mut i: usize = 0;
        while i < new_total
            invariant
                i <= new_total,
                new_blocks@.len() == i,
            decreases new_total - i,
        {
            new_blocks.push(0);
            i = i + 1;
        }
        self.width = width;
        self.height = height;
        self.total_blocks = new_total;
        self.blocks = new_blocks;
    }

    /// Mark every block before the scan position as scanned.
    ///
    /// The covered prefix is the position's share of the grid:
    /// `position * total_blocks / total_size` blocks.
    pub fn update_position(&mut self, position: u64, total_size: u64)
        requires
            old(self).wf(),
        ensures
            final(self).wf(),
            final(self).width == old(self).width,
            final(self).height == old(self).height,
            final(self).blocks@.len() == old(self).blocks@.len(),
    {
        if total_size == 0 {
            return;
        }
        proof {
            assert((position as u128) * (self.total_blocks as u128)
                <= 0xffff_ffff_ffff_ffff_u128 * 0x1000000) by (nonlinear_arith)
                requires
                    position <= 0xffff_ffff_ffff_ffff,
                    self.total_blocks <= 0x1000000,
            ;
        }
        let share: u128 = (position as u128) * (self.total_blocks as u128) / (total_size as u128);
        let scanned: usize = if share > self.total_blocks as u128 {
            self.total_blocks
        } else {
            share as usize
        };
        let mut i: usize = 0;
        while i < scanned && i < self.blocks.len()
            invariant
                self.wf(),
                self.blocks@.len() == old(self).blocks@.len(),
                self.width == old(self).width,
                self.height == old(self).height,
                i <= self.blocks@.len(),
            decreases self.blocks@.len() - i,
        {
            if self.blocks[i] == 0 {
                self.blocks.set(i, 1);
            }
            i = i + 1;
        }
    }

    /// Mark the block owning an offset as found data.
    pub fn mark_found_data(&mut self, offset: u64, total_size: u64)
        requires
            old(self).wf(),
        ensures
            final(self).wf(),
            final(self).blocks@.len() == old(self).blocks@.len(),
            final(self).width == old(self).width,
            final(self).height == old(self).height,
    {
        if total_size == 0 {
            return;
        }
        proof {
            assert((offset as u128) * (self.total_blocks as u128)
                <= 0xffff_ffff_ffff_ffff_u128 * 0x1000000) by (nonlinear_arith)
                requires
                    offset <= 0xffff_ffff_ffff_ffff,
                    self.total_blocks <= 0x1000000,
            ;
        }
        let share: u128 = (offset as u128) * (self.total_blocks as u128) / (total_size as u128);
        if share < self.blocks.len() as u128 {
            let idx: usize = share as usize;
            self.blocks.set(idx, 2);
        }
    }

    /// The glyph of a block state.
    pub fn get_block_char(&self, idx: usize) -> (r: char)
        ensures
            idx < self.blocks@.len() && self.blocks@[idx as int] == 0 ==> r == '\u{2591}',
            idx < self.blocks@.len() && self.blocks@[idx as int] == 1 ==> r == '\u{2592}',
            idx < self.blocks@.len() && (self.blocks@[idx as int] == 2 || self.blocks@[
                idx as int] == 3) ==> r == '\u{2588}',
            idx >= self.blocks@.len() ==> r == '\u{2591}',
    {
        if idx >= self.blocks.len() {
            return '\u{2591}';
        }
        let state: u8 = self.blocks[idx];
        if state == 1 {
            '\u{2592}'
        } else if state == 2 || state == 3 {
            '\u{2588}'
        } else {
            '\u{2591}'
        }
    }
}

} // verus!
