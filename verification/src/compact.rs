//! The leaves of a compacted tree file, built value by value: each value's
//! record is appended where the file ends, and once a leaf is full, its
//! block follows its last value.
use vstd::prelude::*;
use crate::info_codec::{encode_value_infos, info_records, INFO_WIDTH};
use crate::le::push_bytes;
use crate::tree_format::{
    encode_file_header, encode_leaf_block, encode_value_record, file_header_bytes, node_block_bytes,
    value_reads_back, value_record_bytes, TreeFormatError, ValueInfo, ValueStorageMode,
    COMPRESSION_THRESHOLD_PERCENT, HEADER_SIZE,
};

verus! {

/// A compacted file under way: its bytes so far, the value infos of the
/// leaf being filled, and how many values a leaf takes.
pub struct CompactWriter {
    pub image: Vec<u8>,
    pub leaf_infos: Vec<ValueInfo>,
    pub leaf_order: usize,
}

impl CompactWriter {
    /// A file that holds its header block so far, and an empty leaf.
    pub fn new(leaf_order: usize) -> (r: Self)
        ensures
            r.image@ == file_header_bytes(HEADER_SIZE),
            r.leaf_infos@.len() == 0,
            r.leaf_order == leaf_order,
    {
        CompactWriter { image: encode_file_header(HEADER_SIZE), leaf_infos: Vec::new(), leaf_order }
    }

    /// Appends the record of a value's bytes `raw` where the file ends and
    /// gives the leaf the value's info; returns whether the leaf then holds
    /// `leaf_order` values. Fails, changing nothing, where the record is
    /// longer than its `u32` length field.
    pub fn add_value(&mut self, raw: &[u8]) -> (r: Result<bool, TreeFormatError>)
        requires
            raw@.len() * COMPRESSION_THRESHOLD_PERCENT <= usize::MAX,
        ensures
            r is Err <==> value_record_bytes(raw@).len() > u32::MAX,
            r matches Err(e) ==> {
                &&& e is LengthOverflow
                &&& final(self).image@ == old(self).image@
                &&& final(self).leaf_infos@ == old(self).leaf_infos@
                &&& final(self).leaf_order == old(self).leaf_order
            },
            r matches Ok(full) ==> {
                let rec = value_record_bytes(raw@);
                &&& final(self).image@ == old(self).image@ + rec
                &&& final(self).leaf_infos@ == old(self).leaf_infos@.push(
                    (ValueInfo {
                        mode: ValueStorageMode::Single(old(self).image@.len() as u64),
                        length: rec.len() as u32,
                        compressed_cache: None,
                    }),
                )
                &&& final(self).leaf_order == old(self).leaf_order
                &&& full == (final(self).leaf_infos@.len() >= old(self).leaf_order)
                &&& raw@.len() <= u32::MAX ==> value_reads_back(
                    final(self).image@,
                    final(self).leaf_infos@.last(),
                    raw@,
                )
            },
    {
        let record = encode_value_record(raw);
        if record.len() > 4294967295usize {
            return Err(TreeFormatError::LengthOverflow);
        }
        let offset = self.image.len() as u64;
        let ghost before = self.image@;
        push_bytes(&mut self.image, record.as_slice());
        self.leaf_infos.push(
            ValueInfo { mode: ValueStorageMode::Single(offset), length: record.len() as u32, compressed_cache: None },
        );
        proof {
            assert(self.image@.subrange(before.len() as int, self.image@.len() as int) =~= record@);
        }
        Ok(self.leaf_infos.len() >= self.leaf_order)
    }

    /// Appends the block of the leaf being filled, whose keys are encoded
    /// as `keys`, where the file ends, and starts a new leaf; returns the
    /// leaf's offset. Fails, changing nothing, where the keys or the value
    /// infos are longer than their `u32` length fields.
    pub fn close_leaf(&mut self, keys: &[u8]) -> (r: Result<u64, TreeFormatError>)
        requires
            keys@.len() + INFO_WIDTH * old(self).leaf_infos@.len() + 4104 <= usize::MAX,
        ensures
            r is Err <==> (keys@.len() > u32::MAX || INFO_WIDTH * old(self).leaf_infos@.len() > u32::MAX),
            r matches Err(e) ==> {
                &&& e is LengthOverflow
                &&& final(self).image@ == old(self).image@
                &&& final(self).leaf_infos@ == old(self).leaf_infos@
                &&& final(self).leaf_order == old(self).leaf_order
            },
            r matches Ok(off) ==> {
                &&& off == old(self).image@.len()
                &&& final(self).image@ == old(self).image@ + node_block_bytes(
                    true,
                    keys@,
                    info_records(old(self).leaf_infos@),
                )
                &&& final(self).leaf_infos@.len() == 0
                &&& final(self).leaf_order == old(self).leaf_order
            },
    {
        let ie = encode_value_infos(self.leaf_infos.as_slice());
        let block = match encode_leaf_block(keys, ie.as_slice()) {
            Ok(b) => b,
            Err(e) => return Err(e),
        };
        let offset = self.image.len() as u64;
        push_bytes(&mut self.image, block.as_slice());
        self.leaf_infos = Vec::new();
        Ok(offset)
    }
}

} // verus!
