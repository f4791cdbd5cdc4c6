//! The Tabix index: its layout, its parser and its queries.
//!
//! A Tabix index is a gzip stream.  Decompressed, it holds a header, the
//! names of the reference sequences, and for each of them the chunks of
//! every bin and a linear index with one virtual file offset for every 16 kb
//! window.  All numbers are little-endian.

use crate::block::block_of;
use crate::bytes::{bytes_eq, copy_range, le_u32, le_u64, read_le_u32, read_le_u64};
use crate::deflate::{gunzip, gunzipped};
use crate::error::BGZFError;
use crate::index::region::{
    insert_index, lemma_merged_sorted_separated, merged, separated, sorted_by_beg, RegionSimplify,
};
use crate::index::{reg2bins, reg2bins_spec, MAX_POSITION};
use crate::read::{
    advance, data_at, intact, lemma_advance_data, lemma_line_length, line_length, seek_place,
    BGZFReader,
};
use crate::vfo::{vfo_coffset, vfo_of, vfo_uoffset};
use std::collections::BTreeMap;
use vstd::prelude::*;
use vstd::slice::slice_subrange;

verus! {

/// The number of positions that one entry of the linear index stands for.
pub const LINER_INTERVAL: u64 = 16384;

/// The number of bytes before the names: the magic number and eight fields.
pub const HEADER_LENGTH: usize = 36;

/// The bit of `format` that marks coordinates as zero-based.
pub const ZERO_BASED_FLAG: u32 = 0x10000;

/// One record that a scan found, with its zero-based half-open range.
#[derive(Debug)]
pub struct TabixEntry {
    pub data: Vec<u8>,
    pub begin: u64,
    pub end: u64,
}

/// A range of virtual file offsets that holds records of one bin.
#[derive(Debug, PartialEq, Eq, Clone)]
pub struct Chunk {
    pub chunk_beg: u64,
    pub chunk_end: u64,
}

/// The chunks of one bin, as the index stores them.
#[derive(Debug, PartialEq, Eq, Clone)]
pub struct BinIndex {
    pub bin: u32,
    pub n_chunk: u32,
    pub chunks: Vec<Chunk>,
}

/// The index of one reference sequence.
#[derive(Debug, PartialEq, Eq, Clone)]
pub struct SequenceIndex {
    pub n_bin: u32,
    pub bins: BTreeMap<u32, BinIndex>,
    pub n_intv: u32,
    pub interval: Vec<u64>,
}

/// A Tabix index, loaded once and read from then on.
#[derive(Debug, PartialEq, Eq, Clone)]
pub struct TabixIndex {
    pub n_ref: u32,
    pub format: u32,
    pub col_seq: u32,
    pub col_beg: u32,
    pub col_end: u32,
    pub meta: u32,
    pub skip: u32,
    pub l_nm: u32,
    pub names: Vec<Vec<u8>>,
    pub seq_index: Vec<SequenceIndex>,
    zero_based: bool,
    sam_mode: bool,
    vcf_mode: bool,
}

/// What a `BinIndex` holds, as mathematical values.
pub struct BinModel {
    pub bin: u32,
    pub n_chunk: u32,
    pub chunks: Seq<(u64, u64)>,
}

/// What a `SequenceIndex` holds, as mathematical values.
pub struct SequenceModel {
    pub n_bin: u32,
    pub bins: Map<u32, BinModel>,
    pub n_intv: u32,
    pub interval: Seq<u64>,
}

/// What a `TabixIndex` holds, as mathematical values.
pub struct TabixModel {
    pub n_ref: u32,
    pub format: u32,
    pub col_seq: u32,
    pub col_beg: u32,
    pub col_end: u32,
    pub meta: u32,
    pub skip: u32,
    pub l_nm: u32,
    pub names: Seq<Seq<u8>>,
    pub seq_index: Seq<SequenceModel>,
    pub zero_based: bool,
    pub sam_mode: bool,
    pub vcf_mode: bool,
}

/// The chunks as pairs of their two offsets.
pub open spec fn chunk_views(chunks: Seq<Chunk>) -> Seq<(u64, u64)> {
    Seq::new(chunks.len(), |i: int| (chunks[i].chunk_beg, chunks[i].chunk_end))
}

/// The bins by their number, each as mathematical values.
pub open spec fn bin_views(bins: Map<u32, BinIndex>) -> Map<u32, BinModel> {
    Map::new(|id: u32| bins.contains_key(id), |id: u32| bins[id]@)
}

/// The byte strings that the vectors hold.
pub open spec fn name_views(names: Seq<Vec<u8>>) -> Seq<Seq<u8>> {
    Seq::new(names.len(), |i: int| names[i]@)
}

/// The indices of the reference sequences, each as mathematical values.
pub open spec fn sequence_views(seqs: Seq<SequenceIndex>) -> Seq<SequenceModel> {
    Seq::new(seqs.len(), |i: int| seqs[i]@)
}

impl View for BinIndex {
    type V = BinModel;

    open spec fn view(&self) -> BinModel {
        BinModel { bin: self.bin, n_chunk: self.n_chunk, chunks: chunk_views(self.chunks@) }
    }
}

impl View for SequenceIndex {
    type V = SequenceModel;

    open spec fn view(&self) -> SequenceModel {
        SequenceModel {
            n_bin: self.n_bin,
            bins: bin_views(self.bins@),
            n_intv: self.n_intv,
            interval: self.interval@,
        }
    }
}

impl View for TabixIndex {
    type V = TabixModel;

    closed spec fn view(&self) -> TabixModel {
        TabixModel {
            n_ref: self.n_ref,
            format: self.format,
            col_seq: self.col_seq,
            col_beg: self.col_beg,
            col_end: self.col_end,
            meta: self.meta,
            skip: self.skip,
            l_nm: self.l_nm,
            names: name_views(self.names@),
            seq_index: sequence_views(self.seq_index@),
            zero_based: self.zero_based,
            sam_mode: self.sam_mode,
            vcf_mode: self.vcf_mode,
        }
    }
}

/// The name that is being read at the end of `s`: the bytes after the last
/// NUL byte.
pub open spec fn pending_name(s: Seq<u8>) -> Seq<u8>
    decreases s.len(),
{
    if s.len() == 0 || s.last() == 0 {
        Seq::empty()
    } else {
        pending_name(s.drop_last()).push(s.last())
    }
}

/// The names in `s`, each closed by a NUL byte.  Bytes after the last NUL
/// byte belong to no name.
pub open spec fn names_in(s: Seq<u8>) -> Seq<Seq<u8>>
    decreases s.len(),
{
    if s.len() == 0 {
        Seq::empty()
    } else if s.last() == 0 {
        names_in(s.drop_last()).push(pending_name(s.drop_last()))
    } else {
        names_in(s.drop_last())
    }
}

/// The `n` chunks that are stored from `at` on.
pub open spec fn chunks_at(b: Seq<u8>, at: int, n: nat) -> Seq<(u64, u64)> {
    Seq::new(n, |i: int| (le_u64(b, at + 16 * i), le_u64(b, at + 16 * i + 8)))
}

/// The `n` entries of a linear index that are stored from `at` on.
pub open spec fn intervals_at(b: Seq<u8>, at: int, n: nat) -> Seq<u64> {
    Seq::new(n, |i: int| le_u64(b, at + 8 * i))
}

/// Where the bin that starts at `at` ends.
pub open spec fn bin_end(b: Seq<u8>, at: int) -> int {
    at + 8 + 16 * le_u32(b, at + 4)
}

/// Whether all of the bin that starts at `at` is there.
pub open spec fn bin_complete(b: Seq<u8>, at: int) -> bool {
    at + 8 <= b.len() && bin_end(b, at) <= b.len()
}

/// The bin that starts at `at`.
pub open spec fn bin_at(b: Seq<u8>, at: int) -> BinModel {
    BinModel {
        bin: le_u32(b, at),
        n_chunk: le_u32(b, at + 4),
        chunks: chunks_at(b, at + 8, le_u32(b, at + 4) as nat),
    }
}

/// Where `n` bins that follow each other from `at` on end, or nothing if
/// the data ends before they do.
pub open spec fn bins_end(b: Seq<u8>, at: int, n: nat) -> Option<int>
    decreases n,
{
    if n == 0 {
        Some(at)
    } else {
        match bins_end(b, at, (n - 1) as nat) {
            Some(last) => if bin_complete(b, last) {
                Some(bin_end(b, last))
            } else {
                None
            },
            None => None,
        }
    }
}

/// The `n` bins that follow each other from `at` on, by their number.  Of
/// two bins with one number the later one is kept.
pub open spec fn bins_at(b: Seq<u8>, at: int, n: nat) -> Map<u32, BinModel>
    decreases n,
{
    if n == 0 {
        Map::empty()
    } else {
        let last = bins_end(b, at, (n - 1) as nat).unwrap();
        bins_at(b, at, (n - 1) as nat).insert(le_u32(b, last), bin_at(b, last))
    }
}

/// Where the index of the reference sequence that starts at `at` ends, or
/// nothing if the data ends before it does.
pub open spec fn sequence_end(b: Seq<u8>, at: int) -> Option<int> {
    if at + 4 > b.len() {
        None
    } else {
        match bins_end(b, at + 4, le_u32(b, at) as nat) {
            Some(linear) => if linear + 4 <= b.len() && linear + 4 + 8 * le_u32(b, linear)
                <= b.len() {
                Some(linear + 4 + 8 * le_u32(b, linear))
            } else {
                None
            },
            None => None,
        }
    }
}

/// The index of the reference sequence that starts at `at`.
pub open spec fn sequence_at(b: Seq<u8>, at: int) -> SequenceModel {
    let n_bin = le_u32(b, at);
    let linear = bins_end(b, at + 4, n_bin as nat).unwrap();
    let n_intv = le_u32(b, linear);
    SequenceModel {
        n_bin,
        bins: bins_at(b, at + 4, n_bin as nat),
        n_intv,
        interval: intervals_at(b, linear + 4, n_intv as nat),
    }
}

/// Where the indices of `n` reference sequences that follow each other from
/// `at` on end, or nothing if the data ends before they do.
pub open spec fn sequences_end(b: Seq<u8>, at: int, n: nat) -> Option<int>
    decreases n,
{
    if n == 0 {
        Some(at)
    } else {
        match sequences_end(b, at, (n - 1) as nat) {
            Some(last) => sequence_end(b, last),
            None => None,
        }
    }
}

/// The indices of the `n` reference sequences that follow each other from
/// `at` on.
pub open spec fn sequences_at(b: Seq<u8>, at: int, n: nat) -> Seq<SequenceModel> {
    Seq::new(n, |i: int| sequence_at(b, sequences_end(b, at, i as nat).unwrap()))
}

/// Whether `b` starts with the magic number of a Tabix index, `TBI\x01`.
pub open spec fn has_tabix_magic(b: Seq<u8>) -> bool {
    b.len() >= 4 && b[0] == 0x54 && b[1] == 0x42 && b[2] == 0x49 && b[3] == 0x01
}

/// The Tabix index that the decompressed bytes `b` hold.
///
/// The index is refused as not Tabix where the magic number differs, and as
/// truncated where the bytes end before the magic number, the header, the
/// names, or the index of a reference sequence is complete, and where there
/// are fewer names than reference sequences.  In VCF mode the end column is
/// 5 whatever the header says.
pub open spec fn tabix_of(b: Seq<u8>) -> Result<TabixModel, BGZFError> {
    if b.len() < 4 {
        Err(BGZFError::Truncated)
    } else if !has_tabix_magic(b) {
        Err(BGZFError::NotTabix)
    } else if b.len() < HEADER_LENGTH {
        Err(BGZFError::Truncated)
    } else {
        let n_ref = le_u32(b, 4);
        let format = le_u32(b, 8);
        let l_nm = le_u32(b, 32);
        let start = HEADER_LENGTH + l_nm;
        if b.len() < start {
            Err(BGZFError::Truncated)
        } else if names_in(b.subrange(HEADER_LENGTH as int, start)).len() < n_ref {
            Err(BGZFError::Truncated)
        } else if sequences_end(b, start, n_ref as nat) is None {
            Err(BGZFError::Truncated)
        } else {
            Ok(
                TabixModel {
                    n_ref,
                    format,
                    col_seq: le_u32(b, 12),
                    col_beg: le_u32(b, 16),
                    col_end: if format == 2 {
                        5
                    } else {
                        le_u32(b, 20)
                    },
                    meta: le_u32(b, 24),
                    skip: le_u32(b, 28),
                    l_nm,
                    names: names_in(b.subrange(HEADER_LENGTH as int, start)),
                    seq_index: sequences_at(b, start, n_ref as nat),
                    zero_based: format & ZERO_BASED_FLAG != 0,
                    sam_mode: format == 1,
                    vcf_mode: format == 2,
                },
            )
        }
    }
}

/// The Tabix index in a file of which a gzip decoder made the bytes
/// `plain`.  Where the index is not complete because the decoder stopped
/// at data that is no gzip stream, the failure is that of the decoder.
pub open spec fn tabix_of_file(plain: Seq<u8>, corrupt: bool) -> Result<TabixModel, BGZFError> {
    match tabix_of(plain) {
        Ok(index) => Ok(index),
        Err(e) => if corrupt && e == BGZFError::Truncated {
            Err(BGZFError::Io)
        } else {
            Err(e)
        },
    }
}

/// The rid of `name` among the first `n` names: the place of its last
/// occurrence there, or nothing if it does not occur.
pub open spec fn rid_of(names: Seq<Seq<u8>>, n: nat, name: Seq<u8>) -> Option<u32>
    decreases n,
{
    if n == 0 {
        None
    } else if n <= names.len() && names[n - 1] == name {
        Some((n - 1) as u32)
    } else {
        rid_of(names, (n - 1) as nat, name)
    }
}

/// The ranges `chunks`, put one after the other into the ordered list `s`.
pub open spec fn insert_all(s: Seq<(u64, u64)>, chunks: Seq<(u64, u64)>) -> Seq<(u64, u64)>
    decreases chunks.len(),
{
    if chunks.len() == 0 {
        s
    } else {
        let before = insert_all(s, chunks.drop_last());
        before.insert(insert_index(before, chunks.last().0) as int, chunks.last())
    }
}

/// The chunks of the bins `ids` that the index holds, in ascending order of
/// their beginnings.
pub open spec fn gathered(bins: Map<u32, BinModel>, ids: Seq<u32>) -> Seq<(u64, u64)>
    decreases ids.len(),
{
    if ids.len() == 0 {
        Seq::empty()
    } else {
        let before = gathered(bins, ids.drop_last());
        if bins.contains_key(ids.last()) {
            insert_all(before, bins[ids.last()].chunks)
        } else {
            before
        }
    }
}

/// The ranges of virtual file offsets to read for the records of a
/// reference sequence that may meet the half-open range from `begin` to
/// `end`: the chunks of every bin that meets the range, merged.
pub open spec fn region_chunks_spec(seq: SequenceModel, begin: int, end: int) -> Seq<(u64, u64)> {
    merged(gathered(seq.bins, reg2bins_spec(begin, end)))
}

/// The range of virtual file offsets to read for the records of reference
/// sequence `rid` that start between `start_begin` and `start_end`: from the
/// entry of the linear index for the window of `start_begin` to the entry
/// for the window after that of `start_end + 1`, or to the last entry if
/// there is none for that window.
pub open spec fn start_chunks_spec(
    index: TabixModel,
    rid: u32,
    start_begin: u64,
    start_end: u64,
) -> Result<(u64, u64), BGZFError> {
    if rid >= index.seq_index.len() {
        Err(BGZFError::OutOfIndex)
    } else {
        let interval = index.seq_index[rid as int].interval;
        let first = start_begin as int / LINER_INTERVAL as int;
        let after = (start_end + 1) / LINER_INTERVAL as int + 1;
        if first >= interval.len() {
            Err(BGZFError::OutOfIndex)
        } else if after >= interval.len() {
            Ok((interval[first], interval[interval.len() - 1]))
        } else {
            Ok((interval[first], interval[after]))
        }
    }
}

/// Once the data has ended inside a run of bins, it has ended for every
/// longer run.
proof fn lemma_bins_end_none(b: Seq<u8>, at: int, k: nat, n: nat)
    requires
        k <= n,
        bins_end(b, at, k) is None,
    ensures
        bins_end(b, at, n) is None,
    decreases n,
{
    if k < n {
        lemma_bins_end_none(b, at, k, (n - 1) as nat);
    }
}

/// Once the data has ended inside a run of sequence indices, it has ended
/// for every longer run.
proof fn lemma_sequences_end_none(b: Seq<u8>, at: int, k: nat, n: nat)
    requires
        k <= n,
        sequences_end(b, at, k) is None,
    ensures
        sequences_end(b, at, n) is None,
    decreases n,
{
    if k < n {
        lemma_sequences_end_none(b, at, k, (n - 1) as nat);
    }
}

/// Reads `n` chunks from `at` on.
fn parse_chunks(data: &[u8], at: usize, n: u32) -> (chunks: Vec<Chunk>)
    requires
        at + 16 * n <= data.len(),
    ensures
        chunk_views(chunks@) == chunks_at(data@, at as int, n as nat),
{
    let mut chunks: Vec<Chunk> = Vec::new();
    let mut i: usize = 0;
    while i < n as usize
        invariant
            i <= n,
            at + 16 * n <= data.len(),
            chunks@.len() == i,
            forall|j: int|
                0 <= j < i ==> (#[trigger] chunks@[j]).chunk_beg == le_u64(data@, at + 16 * j)
                    && chunks@[j].chunk_end == le_u64(data@, at + 16 * j + 8),
        decreases n - i,
    {
        let chunk_beg = read_le_u64(data, at + 16 * i);
        let chunk_end = read_le_u64(data, at + 16 * i + 8);
        chunks.push(Chunk { chunk_beg, chunk_end });
        i += 1;
    }
    assert(chunk_views(chunks@) =~= chunks_at(data@, at as int, n as nat));
    chunks
}

/// Reads `n` entries of a linear index from `at` on.
fn parse_intervals(data: &[u8], at: usize, n: u32) -> (interval: Vec<u64>)
    requires
        at + 8 * n <= data.len(),
    ensures
        interval@ == intervals_at(data@, at as int, n as nat),
{
    let mut interval: Vec<u64> = Vec::new();
    let mut i: usize = 0;
    while i < n as usize
        invariant
            i <= n,
            at + 8 * n <= data.len(),
            interval@.len() == i,
            forall|j: int| 0 <= j < i ==> #[trigger] interval@[j] == le_u64(data@, at + 8 * j),
        decreases n - i,
    {
        let ioff = read_le_u64(data, at + 8 * i);
        interval.push(ioff);
        i += 1;
    }
    assert(interval@ =~= intervals_at(data@, at as int, n as nat));
    interval
}

/// Whether `count` records of `size` bytes each fit into `data` from `at`
/// on.
fn records_fit(data: &[u8], at: usize, count: u32, size: u64) -> (fit: bool)
    requires
        at <= data.len(),
        size <= 16,
    ensures
        fit == (at + size * count <= data.len()),
{
    assert(size * count <= 16 * 0xFFFF_FFFF) by (nonlinear_arith)
        requires
            size <= 16,
            count <= 0xFFFF_FFFF,
    ;
    size * (count as u64) <= (data.len() - at) as u64
}

/// Reads the bin that starts at `at`, if all of it is there.
fn parse_bin(data: &[u8], at: usize) -> (r: Option<(BinIndex, usize)>)
    requires
        at <= data.len(),
    ensures
        match r {
            Some((bin, end)) => bin_complete(data@, at as int) && bin@ == bin_at(data@, at as int)
                && end == bin_end(data@, at as int),
            None => !bin_complete(data@, at as int),
        },
{
    if data.len() - at < 8 {
        return None;
    }
    let bin = read_le_u32(data, at);
    let n_chunk = read_le_u32(data, at + 4);
    if !records_fit(data, at + 8, n_chunk, 16) {
        return None;
    }
    let chunks = parse_chunks(data, at + 8, n_chunk);
    Some((BinIndex { bin, n_chunk, chunks }, at + 8 + 16 * (n_chunk as usize)))
}

/// Reads `n_bin` bins from `at` on, if all of them are there.
fn parse_bins(data: &[u8], at: usize, n_bin: u32) -> (r: Option<(BTreeMap<u32, BinIndex>, usize)>)
    requires
        at <= data.len(),
    ensures
        match r {
            Some((bins, end)) => bins_end(data@, at as int, n_bin as nat) == Some(end as int)
                && bin_views(bins@) == bins_at(data@, at as int, n_bin as nat) && end
                <= data.len(),
            None => bins_end(data@, at as int, n_bin as nat) is None,
        },
{
    let mut bins: BTreeMap<u32, BinIndex> = BTreeMap::new();
    let mut pos: usize = at;
    let mut k: u32 = 0;
    assert(bin_views(bins@) =~= bins_at(data@, at as int, 0));
    while k < n_bin
        invariant
            k <= n_bin,
            pos <= data.len(),
            bins_end(data@, at as int, k as nat) == Some(pos as int),
            bin_views(bins@) == bins_at(data@, at as int, k as nat),
        decreases n_bin - k,
    {
        match parse_bin(data, pos) {
            Some((bin, end)) => {
                let id = bin.bin;
                let ghost before = bins@;
                bins.insert(id, bin);
                assert(bin_views(bins@) =~= bin_views(before).insert(id, bin_at(data@, pos as int)));
                pos = end;
            },
            None => {
                proof {
                    lemma_bins_end_none(data@, at as int, (k + 1) as nat, n_bin as nat);
                }
                return None;
            },
        }
        k += 1;
    }
    Some((bins, pos))
}

/// Reads the index of the reference sequence that starts at `at`, if all of
/// it is there.
fn parse_sequence(data: &[u8], at: usize) -> (r: Option<(SequenceIndex, usize)>)
    requires
        at <= data.len(),
    ensures
        match r {
            Some((seq, end)) => sequence_end(data@, at as int) == Some(end as int) && seq@
                == sequence_at(data@, at as int) && end <= data.len(),
            None => sequence_end(data@, at as int) is None,
        },
{
    if data.len() - at < 4 {
        return None;
    }
    let n_bin = read_le_u32(data, at);
    match parse_bins(data, at + 4, n_bin) {
        Some((bins, linear)) => {
            if data.len() - linear < 4 {
                return None;
            }
            let n_intv = read_le_u32(data, linear);
            if !records_fit(data, linear + 4, n_intv, 8) {
                return None;
            }
            let interval = parse_intervals(data, linear + 4, n_intv);
            Some(
                (
                    SequenceIndex { n_bin, bins, n_intv, interval },
                    linear + 4 + 8 * (n_intv as usize),
                ),
            )
        },
        None => None,
    }
}

/// Splits the names that stand in `data` from `from` up to `to`.
fn parse_names(data: &[u8], from: usize, to: usize) -> (names: Vec<Vec<u8>>)
    requires
        from <= to <= data.len(),
    ensures
        name_views(names@) == names_in(data@.subrange(from as int, to as int)),
{
    let ghost s = data@.subrange(from as int, to as int);
    let mut names: Vec<Vec<u8>> = Vec::new();
    let mut temp: Vec<u8> = Vec::new();
    let mut i: usize = from;
    assert(name_views(names@) =~= names_in(s.take(0)));
    while i < to
        invariant
            from <= i <= to <= data.len(),
            s == data@.subrange(from as int, to as int),
            name_views(names@) == names_in(s.take(i - from)),
            temp@ == pending_name(s.take(i - from)),
        decreases to - i,
    {
        let ghost seen = s.take(i - from);
        assert(s.take(i + 1 - from).drop_last() =~= seen);
        assert(s.take(i + 1 - from).last() == data@[i as int]);
        if data[i] == 0 {
            let ghost before = names@;
            names.push(temp);
            temp = Vec::new();
            assert(name_views(names@) =~= name_views(before).push(pending_name(seen)));
        } else {
            temp.push(data[i]);
        }
        i += 1;
    }
    assert(s.take(i - from) =~= s);
    names
}

impl TabixIndex {
    /// Reads a Tabix index from the bytes of its decompressed form.
    #[verifier::loop_isolation(false)]
    pub fn parse(data: &[u8]) -> (r: Result<TabixIndex, BGZFError>)
        ensures
            match r {
                Ok(index) => tabix_of(data@) == Ok::<TabixModel, BGZFError>(index@),
                Err(e) => tabix_of(data@) == Err::<TabixModel, BGZFError>(e),
            },
    {
        if data.len() < 4 {
            return Err(BGZFError::Truncated);
        }
        if !(data[0] == 0x54 && data[1] == 0x42 && data[2] == 0x49 && data[3] == 0x01) {
            return Err(BGZFError::NotTabix);
        }
        if data.len() < HEADER_LENGTH {
            return Err(BGZFError::Truncated);
        }
        let n_ref = read_le_u32(data, 4);
        let format = read_le_u32(data, 8);
        let col_seq = read_le_u32(data, 12);
        let col_beg = read_le_u32(data, 16);
        let mut col_end = read_le_u32(data, 20);
        let meta = read_le_u32(data, 24);
        let skip = read_le_u32(data, 28);
        let l_nm = read_le_u32(data, 32);
        if !records_fit(data, HEADER_LENGTH, l_nm, 1) {
            return Err(BGZFError::Truncated);
        }
        let start: usize = HEADER_LENGTH + l_nm as usize;
        let names = parse_names(data, HEADER_LENGTH, start);
        if names.len() < n_ref as usize {
            return Err(BGZFError::Truncated);
        }
        let mut seq_index: Vec<SequenceIndex> = Vec::new();
        let mut pos: usize = start;
        let mut i: u32 = 0;
        assert(sequence_views(seq_index@) =~= sequences_at(data@, start as int, 0));
        while i < n_ref
            invariant
                i <= n_ref,
                pos <= data.len(),
                seq_index@.len() == i,
                sequences_end(data@, start as int, i as nat) == Some(pos as int),
                sequence_views(seq_index@) == sequences_at(data@, start as int, i as nat),
            decreases n_ref - i,
        {
            match parse_sequence(data, pos) {
                Some((seq, end)) => {
                    let ghost before = seq_index@;
                    seq_index.push(seq);
                    assert forall|j: int| 0 <= j < i + 1 implies sequence_views(seq_index@)[j]
                        == sequences_at(data@, start as int, (i + 1) as nat)[j] by {
                        if j < i {
                            assert(sequence_views(before)[j] == sequences_at(
                                data@,
                                start as int,
                                i as nat,
                            )[j]);
                        }
                    }
                    assert(sequence_views(seq_index@) =~= sequences_at(
                        data@,
                        start as int,
                        (i + 1) as nat,
                    ));
                    pos = end;
                },
                None => {
                    proof {
                        assert(sequences_end(data@, start as int, (i + 1) as nat) is None);
                        lemma_sequences_end_none(
                            data@,
                            start as int,
                            (i + 1) as nat,
                            n_ref as nat,
                        );
                    }
                    return Err(BGZFError::Truncated);
                },
            }
            i += 1;
        }
        let zero_based = format & ZERO_BASED_FLAG != 0;
        let vcf_mode = format == 2;
        let sam_mode = format == 1;
        if vcf_mode {
            col_end = 5;
        }
        Ok(
            TabixIndex {
                n_ref,
                format,
                col_seq,
                col_beg,
                col_end,
                meta,
                skip,
                l_nm,
                names,
                seq_index,
                zero_based,
                sam_mode,
                vcf_mode,
            },
        )
    }

    /// The ranges of virtual file offsets that hold the records of reference
    /// sequence `rid` which may meet the half-open range from `begin` to
    /// `end`.
    pub fn region_chunks(&self, rid: u32, begin: u64, end: u64) -> (out: Vec<(u64, u64)>)
        requires
            rid < self@.seq_index.len(),
            0 < end <= MAX_POSITION,
        ensures
            out@ == region_chunks_spec(self@.seq_index[rid as int], begin as int, end as int),
            sorted_by_beg(out@),
            separated(out@),
    {
        let mut bins: Vec<u32> = Vec::new();
        reg2bins(begin, end, &mut bins);
        assert(bins@ =~= reg2bins_spec(begin as int, end as int));
        let seq = &self.seq_index[rid as usize];
        let mut simplify = RegionSimplify::new();
        let mut i: usize = 0;
        while i < bins.len()
            invariant
                i <= bins.len(),
                simplify.wf(),
                simplify@ == gathered(seq@.bins, bins@.take(i as int)),
            decreases bins.len() - i,
        {
            assert(bins@.take(i + 1).drop_last() =~= bins@.take(i as int));
            let one_bin = bins[i];
            match seq.bins.get(&one_bin) {
                Some(bin_chunks) => {
                    let ghost before = simplify@;
                    let ghost all = chunk_views(bin_chunks.chunks@);
                    let mut j: usize = 0;
                    while j < bin_chunks.chunks.len()
                        invariant
                            j <= bin_chunks.chunks.len(),
                            all == chunk_views(bin_chunks.chunks@),
                            simplify.wf(),
                            simplify@ == insert_all(before, all.take(j as int)),
                        decreases bin_chunks.chunks.len() - j,
                    {
                        assert(all.take(j + 1).drop_last() =~= all.take(j as int));
                        let one_chunk = &bin_chunks.chunks[j];
                        simplify.insert(one_chunk.chunk_beg, one_chunk.chunk_end);
                        j += 1;
                    }
                    assert(all.take(j as int) =~= all);
                },
                None => {},
            }
            i += 1;
        }
        assert(bins@.take(i as int) =~= bins@);
        proof {
            lemma_merged_sorted_separated(simplify@);
        }
        simplify.regions()
    }

    /// The name of reference sequence `rid`.
    pub fn rid2name(&self, rid: u32) -> (name: &[u8])
        requires
            rid < self@.names.len(),
        ensures
            name@ == self@.names[rid as int],
    {
        self.names[rid as usize].as_slice()
    }

    /// The rid of the reference sequence called `name`, if there is one.
    pub fn lookup_name(&self, name: &[u8]) -> (rid: Option<u32>)
        ensures
            rid == rid_of(self@.names, self@.n_ref as nat, name@),
    {
        let mut i: usize = self.n_ref as usize;
        while i > 0
            invariant
                i <= self.n_ref,
                rid_of(self@.names, self@.n_ref as nat, name@) == rid_of(
                    self@.names,
                    i as nat,
                    name@,
                ),
            decreases i,
        {
            if i <= self.names.len() && bytes_eq(self.names[i - 1].as_slice(), name) {
                return Some((i - 1) as u32);
            }
            i -= 1;
        }
        None
    }

    /// The rid of the reference sequence called `name`.
    pub fn name2rid(&self, name: &[u8]) -> (rid: u32)
        requires
            rid_of(self@.names, self@.n_ref as nat, name@) is Some,
        ensures
            rid_of(self@.names, self@.n_ref as nat, name@) == Some(rid),
    {
        match self.lookup_name(name) {
            Some(rid) => rid,
            None => 0,
        }
    }

    /// The names of the reference sequences; the place of a name is its rid.
    pub fn names(&self) -> (names: &[Vec<u8>])
        ensures
            name_views(names@) == self@.names,
    {
        self.names.as_slice()
    }

    /// The range of virtual file offsets that holds the records of
    /// reference sequence `rid` which start between `start_begin` and
    /// `start_end`.
    pub fn start_chunks(&self, rid: u32, start_begin: u64, start_end: u64) -> (r: Result<
        (u64, u64),
        BGZFError,
    >)
        ensures
            r == start_chunks_spec(self@, rid, start_begin, start_end),
    {
        if rid as usize >= self.seq_index.len() {
            return Err(BGZFError::OutOfIndex);
        }
        let seq_index = &self.seq_index[rid as usize];
        let count: u64 = seq_index.interval.len() as u64;
        let begin_index: u64 = start_begin / LINER_INTERVAL;
        let carry: u64 = if start_end % LINER_INTERVAL == LINER_INTERVAL - 1 {
            1
        } else {
            0
        };
        let mut end_index: u64 = start_end / LINER_INTERVAL + carry + 1;
        if begin_index >= count {
            return Err(BGZFError::OutOfIndex);
        }
        if end_index >= count {
            end_index = count - 1;
        }
        Ok((seq_index.interval[begin_index as usize], seq_index.interval[end_index as usize]))
    }

    /// Reads a Tabix index from what a gzip decoder made of its file: the
    /// bytes that it decompressed, and whether it stopped at data that is
    /// no gzip stream.
    pub fn from_decoded(plain: &[u8], corrupt: bool) -> (r: Result<TabixIndex, BGZFError>)
        ensures
            match r {
                Ok(index) => tabix_of_file(plain@, corrupt) == Ok::<TabixModel, BGZFError>(index@),
                Err(e) => tabix_of_file(plain@, corrupt) == Err::<TabixModel, BGZFError>(e),
            },
    {
        match TabixIndex::parse(plain) {
            Ok(index) => Ok(index),
            Err(e) => {
                if corrupt && e == BGZFError::Truncated {
                    Err(BGZFError::Io)
                } else {
                    Err(e)
                }
            },
        }
    }

    /// Reads a Tabix index from the bytes of its file, a gzip stream of one
    /// or more members.
    pub fn new(data: &[u8]) -> (r: Result<TabixIndex, BGZFError>)
        ensures
            match r {
                Ok(index) => tabix_of_file(gunzipped(data@).0, gunzipped(data@).1) == Ok::<
                    TabixModel,
                    BGZFError,
                >(index@),
                Err(e) => tabix_of_file(gunzipped(data@).0, gunzipped(data@).1) == Err::<
                    TabixModel,
                    BGZFError,
                >(e),
            },
    {
        let (plain, corrupt) = gunzip(data);
        TabixIndex::from_decoded(plain.as_slice(), corrupt)
    }
}

/// The tab byte, which parts the fields of a record.
pub const TAB: u8 = 9;

/// The newline byte, which ends a record.
pub const NEWLINE: u8 = 10;

/// The length of the first field of `s`: the number of bytes before the
/// first tab, or all of them if there is no tab.
pub open spec fn first_field_len(s: Seq<u8>) -> int
    decreases s.len(),
{
    if s.len() == 0 || s[0] == TAB {
        0
    } else {
        1 + first_field_len(s.skip(1))
    }
}

/// The field of `s` at place `k`, counting from 0 and parting fields at
/// tabs; nothing if `s` has no more than `k` fields.  The last field holds
/// whatever ends the line.
pub open spec fn field(s: Seq<u8>, k: nat) -> Option<Seq<u8>>
    decreases k,
{
    let n = first_field_len(s);
    if k == 0 {
        Some(s.take(n))
    } else if n >= s.len() {
        None
    } else {
        field(s.skip(n + 1), (k - 1) as nat)
    }
}

/// Where the field of `s` at place `k` starts, or nothing if `s` has no
/// more than `k` fields.
pub open spec fn field_start(s: Seq<u8>, k: nat) -> Option<int>
    decreases k,
{
    let n = first_field_len(s);
    if k == 0 {
        Some(0)
    } else if n >= s.len() {
        None
    } else {
        match field_start(s.skip(n + 1), (k - 1) as nat) {
            Some(at) => Some(n + 1 + at),
            None => None,
        }
    }
}

/// The number that the decimal digits `s` stand for, or nothing if a byte
/// of `s` is no digit.
pub open spec fn digits_value(s: Seq<u8>) -> Option<nat>
    decreases s.len(),
{
    if s.len() == 0 {
        Some(0)
    } else {
        match digits_value(s.drop_last()) {
            Some(v) => if 48 <= s.last() <= 57 {
                Some((v * 10 + (s.last() - 48)) as nat)
            } else {
                None
            },
            None => None,
        }
    }
}

/// The digits of `s`: all of `s` but a plus sign at its start.
pub open spec fn unsigned_digits(s: Seq<u8>) -> Seq<u8> {
    if s.len() > 0 && s[0] == 43 {
        s.skip(1)
    } else {
        s
    }
}

/// The number that `s` stands for as a decimal: at least one digit, with
/// or without a plus sign before them.  Nothing if `s` is anything else,
/// or if the number does not fit in 64 bits.
pub open spec fn decimal_u64(s: Seq<u8>) -> Option<u64> {
    let digits = unsigned_digits(s);
    if digits.len() == 0 {
        None
    } else {
        match digits_value(digits) {
            Some(v) => if v <= u64::MAX {
                Some(v as u64)
            } else {
                None
            },
            None => None,
        }
    }
}

/// The digits at the start of a number stand for no more than the number.
proof fn lemma_digits_value_grows(s: Seq<u8>, n: int)
    requires
        0 <= n <= s.len(),
        digits_value(s) is Some,
    ensures
        digits_value(s.take(n)) is Some,
        digits_value(s.take(n)).unwrap() <= digits_value(s).unwrap(),
    decreases s.len(),
{
    if n < s.len() {
        lemma_digits_value_grows(s.drop_last(), n);
        assert(s.drop_last().take(n) =~= s.take(n));
    } else {
        assert(s.take(n) =~= s);
    }
}

/// Once a byte is no digit, no longer run of bytes stands for a number.
proof fn lemma_digits_value_none(s: Seq<u8>, n: int)
    requires
        0 <= n <= s.len(),
        digits_value(s.take(n)) is None,
    ensures
        digits_value(s) is None,
{
    if digits_value(s) is Some {
        lemma_digits_value_grows(s, n);
    }
}

/// Reads a decimal number.
pub fn convert_data_to_u64(data: &[u8]) -> (r: Result<u64, BGZFError>)
    ensures
        match r {
            Ok(v) => decimal_u64(data@) == Some(v),
            Err(e) => e == BGZFError::ParseRecord && decimal_u64(data@) is None,
        },
{
    let from: usize = if data.len() > 0 && data[0] == 43 {
        1
    } else {
        0
    };
    if from == data.len() {
        return Err(BGZFError::ParseRecord);
    }
    let ghost digits = unsigned_digits(data@);
    assert(digits =~= data@.subrange(from as int, data@.len() as int));
    let mut value: u64 = 0;
    let mut i: usize = from;
    assert(digits.take(0) =~= Seq::<u8>::empty());
    while i < data.len()
        invariant
            from <= i <= data.len(),
            digits == unsigned_digits(data@),
            digits == data@.subrange(from as int, data@.len() as int),
            digits_value(digits.take(i - from)) == Some(value as nat),
        decreases data.len() - i,
    {
        let byte = data[i];
        let ghost seen = digits.take(i - from);
        let ghost next = digits.take(i + 1 - from);
        assert(next.drop_last() =~= seen);
        assert(next.last() == byte);
        if byte < 48 || byte > 57 {
            proof {
                lemma_digits_value_none(digits, i + 1 - from);
            }
            return Err(BGZFError::ParseRecord);
        }
        let digit = (byte - 48) as u64;
        if value > (u64::MAX - digit) / 10 {
            proof {
                if digits_value(digits) is Some {
                    lemma_digits_value_grows(digits, i + 1 - from);
                }
            }
            return Err(BGZFError::ParseRecord);
        }
        value = value * 10 + digit;
        i += 1;
    }
    assert(digits.take(i - from) =~= digits);
    Ok(value)
}

/// Finds the field of `line` at place `k`: where it starts and where it
/// ends.
pub fn find_field(line: &[u8], k: usize) -> (r: Option<(usize, usize)>)
    ensures
        match r {
            Some((from, to)) => from <= to <= line.len() && field_start(line@, k as nat) == Some(
                from as int,
            ) && field(line@, k as nat) == Some(line@.subrange(from as int, to as int)),
            None => field(line@, k as nat) is None && field_start(line@, k as nat) is None,
        },
{
    let mut from: usize = 0;
    let mut left: usize = k;
    assert(line@.skip(0) =~= line@);
    loop
        invariant
            from <= line.len(),
            left <= k,
            field(line@, k as nat) == field(line@.skip(from as int), left as nat),
            field_start(line@, k as nat) == match field_start(
                line@.skip(from as int),
                left as nat,
            ) {
                Some(at) => Some(from + at),
                None => None,
            },
        decreases left,
    {
        let ghost rest = line@.skip(from as int);
        let mut to: usize = from;
        assert(rest.skip(0) =~= rest);
        while to < line.len() && line[to] != TAB
            invariant
                from <= to <= line.len(),
                rest == line@.skip(from as int),
                first_field_len(rest) == (to - from) + first_field_len(rest.skip(to - from)),
            decreases line.len() - to,
        {
            assert(rest.skip(to - from).skip(1) =~= rest.skip(to + 1 - from));
            to += 1;
        }
        assert(first_field_len(rest) == to - from);
        if left == 0 {
            assert(rest.take(to - from) =~= line@.subrange(from as int, to as int));
            return Some((from, to));
        }
        if to == line.len() {
            return None;
        }
        assert(rest.skip(to - from + 1) =~= line@.skip(to + 1));
        from = to + 1;
        left -= 1;
    }
}

/// What to do with a record once its range is known.
#[derive(Debug, Clone, Copy, PartialEq, Eq, Structural)]
pub enum Verdict {
    /// The record belongs to the answer.
    Emit,
    /// The record does not belong to the answer, but a later one may.
    Skip,
    /// The record starts after the target, so no later record of the chunk
    /// belongs to the answer.
    NextChunk,
}

/// Whether a record from `start` to `end` belongs to the answer for the
/// target from `target_begin` to `target_end`: by its start alone if
/// `by_start`, and by overlap if not.
pub open spec fn is_hit(
    by_start: bool,
    target_begin: u64,
    target_end: u64,
    start: u64,
    end: u64,
) -> bool {
    if by_start {
        target_begin <= start < target_end
    } else {
        start < target_end && target_begin < end
    }
}

/// What to do with a record from `start` to `end`.
pub open spec fn verdict_of(
    by_start: bool,
    target_begin: u64,
    target_end: u64,
    start: u64,
    end: u64,
) -> Verdict {
    if is_hit(by_start, target_begin, target_end, start, end) {
        Verdict::Emit
    } else if by_start && target_end <= start {
        Verdict::NextChunk
    } else if !by_start && target_end < start {
        Verdict::NextChunk
    } else {
        Verdict::Skip
    }
}

/// Decides what to do with a record from `start` to `end`.
pub fn decide(by_start: bool, target_begin: u64, target_end: u64, start: u64, end: u64) -> (v:
    Verdict)
    ensures
        v == verdict_of(by_start, target_begin, target_end, start, end),
{
    if by_start {
        if target_begin <= start && start < target_end {
            Verdict::Emit
        } else if target_end <= start {
            Verdict::NextChunk
        } else {
            Verdict::Skip
        }
    } else {
        if start < target_end && target_begin < end {
            Verdict::Emit
        } else if target_end < start {
            Verdict::NextChunk
        } else {
            Verdict::Skip
        }
    }
}

/// The zero-based half-open range of the record in `line`, read from the
/// columns that the index names.
///
/// The start is the number in the start column, less one unless
/// coordinates count from zero.  In VCF mode the end is the start plus the
/// length of the field in the end column; otherwise it is the number in
/// the end column.  The record is refused where a column is missing or
/// named as column 0, a number is no decimal, or a coordinate does not fit
/// in 64 bits; SAM mode is not offered.
pub open spec fn record_of(line: Seq<u8>, index: TabixModel) -> Result<(u64, u64), BGZFError> {
    if index.col_beg == 0 || index.col_end == 0 {
        Err(BGZFError::ParseRecord)
    } else {
        match (field(line, (index.col_beg - 1) as nat), field(line, (index.col_end - 1) as nat)) {
            (Some(start_text), Some(end_text)) => match decimal_u64(start_text) {
                Some(v) => if !index.zero_based && v == 0 {
                    Err(BGZFError::ParseRecord)
                } else {
                    let start = if index.zero_based {
                        v
                    } else {
                        (v - 1) as u64
                    };
                    if index.vcf_mode {
                        if start + end_text.len() > u64::MAX {
                            Err(BGZFError::ParseRecord)
                        } else {
                            Ok((start, (start + end_text.len()) as u64))
                        }
                    } else if index.sam_mode {
                        Err(BGZFError::Unsupported)
                    } else {
                        match decimal_u64(end_text) {
                            Some(end) => Ok((start, end)),
                            None => Err(BGZFError::ParseRecord),
                        }
                    }
                },
                None => Err(BGZFError::ParseRecord),
            },
            _ => Err(BGZFError::ParseRecord),
        }
    }
}

/// What a scan does with one line.
#[derive(Debug, Clone, Copy, PartialEq, Eq, Structural)]
pub enum LineAction {
    /// The line is a comment or a record outside the answer: read on.
    Skip,
    /// The line is a record of the answer, with this range.
    Emit(u64, u64),
    /// The chunk holds no more of the answer: go to the next chunk.
    NextChunk,
}

/// What a scan does with `line`.  An empty line shows the end of the
/// stream and ends the chunk; a line that starts with the comment
/// character of the index is passed over; any other line is a record and
/// is judged by its range.
pub open spec fn line_action(
    line: Seq<u8>,
    index: TabixModel,
    by_start: bool,
    target_begin: u64,
    target_end: u64,
) -> Result<LineAction, BGZFError> {
    if line.len() == 0 {
        Ok(LineAction::NextChunk)
    } else if line[0] == (index.meta % 256) as u8 {
        Ok(LineAction::Skip)
    } else {
        match record_of(line, index) {
            Ok((start, end)) => match verdict_of(by_start, target_begin, target_end, start, end) {
                Verdict::Emit => Ok(LineAction::Emit(start, end)),
                Verdict::Skip => Ok(LineAction::Skip),
                Verdict::NextChunk => Ok(LineAction::NextChunk),
            },
            Err(e) => Err(e),
        }
    }
}

impl TabixIndex {
    /// Reads the range of the record in `line`.
    pub fn parse_record(&self, line: &[u8]) -> (r: Result<(u64, u64), BGZFError>)
        ensures
            r == record_of(line@, self@),
    {
        if self.col_beg == 0 || self.col_end == 0 {
            return Err(BGZFError::ParseRecord);
        }
        let start_range = find_field(line, (self.col_beg - 1) as usize);
        let end_range = find_field(line, (self.col_end - 1) as usize);
        match (start_range, end_range) {
            (Some((start_from, start_to)), Some((end_from, end_to))) => {
                let start_text = slice_subrange(line, start_from, start_to);
                let value = match convert_data_to_u64(start_text) {
                    Ok(value) => value,
                    Err(e) => {
                        return Err(e);
                    },
                };
                if !self.zero_based && value == 0 {
                    return Err(BGZFError::ParseRecord);
                }
                let start_pos = if self.zero_based {
                    value
                } else {
                    value - 1
                };
                if self.vcf_mode {
                    let length = (end_to - end_from) as u64;
                    if length > u64::MAX - start_pos {
                        Err(BGZFError::ParseRecord)
                    } else {
                        Ok((start_pos, start_pos + length))
                    }
                } else if self.sam_mode {
                    Err(BGZFError::Unsupported)
                } else {
                    let end_text = slice_subrange(line, end_from, end_to);
                    match convert_data_to_u64(end_text) {
                        Ok(end_pos) => Ok((start_pos, end_pos)),
                        Err(e) => Err(e),
                    }
                }
            },
            _ => Err(BGZFError::ParseRecord),
        }
    }

    /// Decides what a scan for the target from `target_begin` to
    /// `target_end` does with `line`.
    pub fn scan_line(&self, line: &[u8], by_start: bool, target_begin: u64, target_end: u64) -> (r:
        Result<LineAction, BGZFError>)
        ensures
            r == line_action(line@, self@, by_start, target_begin, target_end),
    {
        if line.len() == 0 {
            return Ok(LineAction::NextChunk);
        }
        if line[0] == (self.meta % 256) as u8 {
            return Ok(LineAction::Skip);
        }
        match self.parse_record(line) {
            Ok((start, end)) => match decide(by_start, target_begin, target_end, start, end) {
                Verdict::Emit => Ok(LineAction::Emit(start, end)),
                Verdict::Skip => Ok(LineAction::Skip),
                Verdict::NextChunk => Ok(LineAction::NextChunk),
            },
            Err(e) => Err(e),
        }
    }
}

/// Where a scan is: the place of its reader, the chunk that it is in, and
/// whether it has yet to go to the start of that chunk.
pub struct ScanState {
    pub coffset: int,
    pub uoffset: int,
    pub current: nat,
    pub first_scan: bool,
}

/// A line is no longer than the bytes it is read from.
pub proof fn lemma_line_length_bound(r: Seq<u8>, delim: u8)
    ensures
        0 <= line_length(r, delim) <= r.len(),
        r.len() > 0 ==> line_length(r, delim) > 0,
    decreases r.len(),
{
    if r.len() > 0 && r[0] != delim {
        lemma_line_length_bound(r.skip(1), delim);
    }
}

/// What the next read of a scan gives, and where the scan is after it.
///
/// Once all chunks have been gone through there is nothing to give.  At
/// the start of a chunk the reader goes to where the chunk begins.  A
/// chunk ends where the reader has come to its end; there the scan goes to
/// the next chunk.  Otherwise one line is read and judged: a record of the
/// answer is given with its range and its line, a comment or a record
/// outside the answer is passed over, and at a record that starts after
/// the target, or at the end of the stream, the scan goes to the next
/// chunk.  A line that a broken block cuts short, and a record that cannot
/// be read, end the scan with an error.
pub open spec fn scan(
    source: Seq<u8>,
    index: TabixModel,
    chunks: Seq<(u64, u64)>,
    by_start: bool,
    target_begin: u64,
    target_end: u64,
    st: ScanState,
) -> (Result<Option<(u64, u64, Seq<u8>)>, BGZFError>, ScanState)
    decreases
            chunks.len() - st.current,
            if st.first_scan {
                1nat
            } else {
                0nat
            },
            data_at(source, st.coffset, st.uoffset).len(),
{
    if st.current >= chunks.len() {
        (Ok(None), st)
    } else if st.first_scan {
        match seek_place(source, chunks[st.current as int].0) {
            Ok((coffset, uoffset)) => scan(
                source,
                index,
                chunks,
                by_start,
                target_begin,
                target_end,
                ScanState { coffset, uoffset, current: st.current, first_scan: false },
            ),
            Err(e) => (
                Err(e),
                ScanState {
                    coffset: source.len() as int,
                    uoffset: 0,
                    current: st.current,
                    first_scan: true,
                },
            ),
        }
    } else if vfo_of(st.coffset as u64, st.uoffset as u64) >= chunks[st.current as int].1 {
        scan(
            source,
            index,
            chunks,
            by_start,
            target_begin,
            target_end,
            ScanState {
                coffset: st.coffset,
                uoffset: st.uoffset,
                current: st.current + 1,
                first_scan: true,
            },
        )
    } else {
        let rest = data_at(source, st.coffset, st.uoffset);
        let n = line_length(rest, NEWLINE);
        let line = rest.take(n);
        let place = advance(source, st.coffset, st.uoffset, n);
        let after = ScanState {
            coffset: place.0,
            uoffset: place.1,
            current: st.current,
            first_scan: false,
        };
        if !intact(source.skip(st.coffset)) && (n == 0 || rest[n - 1] != NEWLINE) {
            (Err(BGZFError::MalformedBlock), after)
        } else {
            match line_action(line, index, by_start, target_begin, target_end) {
                Ok(LineAction::Emit(start, end)) => (Ok(Some((start, end, line))), after),
                Ok(LineAction::Skip) => if n > 0 {
                    proof {
                        lemma_line_length_bound(rest, NEWLINE);
                        lemma_advance_data(source, st.coffset, st.uoffset, n);
                    }
                    scan(source, index, chunks, by_start, target_begin, target_end, after)
                } else {
                    (Ok(None), after)
                },
                Ok(LineAction::NextChunk) => scan(
                    source,
                    index,
                    chunks,
                    by_start,
                    target_begin,
                    target_end,
                    ScanState {
                        coffset: place.0,
                        uoffset: place.1,
                        current: st.current + 1,
                        first_scan: true,
                    },
                ),
                Err(e) => (Err(e), after),
            }
        }
    }
}

/// Whether a scan at `a` is further on than a scan at `b`: in a later
/// chunk, or in the same chunk and at its start when `b` is not yet, or
/// with fewer bytes left to read.
pub open spec fn scan_further(source: Seq<u8>, a: ScanState, b: ScanState) -> bool {
    ||| a.current > b.current
    ||| a.current == b.current && b.first_scan && !a.first_scan
    ||| a.current == b.current && a.first_scan == b.first_scan && data_at(
        source,
        a.coffset,
        a.uoffset,
    ).len() < data_at(source, b.coffset, b.uoffset).len()
}

/// A read that gives a record leaves the scan further on than it was, and
/// no read takes the scan beyond its last chunk.
pub proof fn lemma_scan_progress(
    source: Seq<u8>,
    index: TabixModel,
    chunks: Seq<(u64, u64)>,
    by_start: bool,
    target_begin: u64,
    target_end: u64,
    st: ScanState,
)
    ensures
        ({
            let (outcome, after) = scan(
                source,
                index,
                chunks,
                by_start,
                target_begin,
                target_end,
                st,
            );
            &&& outcome matches Ok(Some(entry)) ==> scan_further(source, after, st)
                && after.current < chunks.len()
            &&& st.current <= after.current
            &&& st.current <= chunks.len() ==> after.current <= chunks.len()
        }),
    decreases
            chunks.len() - st.current,
            if st.first_scan {
                1nat
            } else {
                0nat
            },
            data_at(source, st.coffset, st.uoffset).len(),
{
    if st.current >= chunks.len() {
    } else if st.first_scan {
        match seek_place(source, chunks[st.current as int].0) {
            Ok((coffset, uoffset)) => {
                lemma_scan_progress(
                    source,
                    index,
                    chunks,
                    by_start,
                    target_begin,
                    target_end,
                    ScanState { coffset, uoffset, current: st.current, first_scan: false },
                );
            },
            Err(_) => {},
        }
    } else if vfo_of(st.coffset as u64, st.uoffset as u64) >= chunks[st.current as int].1 {
        lemma_scan_progress(
            source,
            index,
            chunks,
            by_start,
            target_begin,
            target_end,
            ScanState {
                coffset: st.coffset,
                uoffset: st.uoffset,
                current: st.current + 1,
                first_scan: true,
            },
        );
    } else {
        let rest = data_at(source, st.coffset, st.uoffset);
        let n = line_length(rest, NEWLINE);
        let line = rest.take(n);
        let place = advance(source, st.coffset, st.uoffset, n);
        let after = ScanState {
            coffset: place.0,
            uoffset: place.1,
            current: st.current,
            first_scan: false,
        };
        lemma_line_length_bound(rest, NEWLINE);
        if n > 0 {
            lemma_advance_data(source, st.coffset, st.uoffset, n);
        }
        if !intact(source.skip(st.coffset)) && (n == 0 || rest[n - 1] != NEWLINE) {
        } else {
            match line_action(line, index, by_start, target_begin, target_end) {
                Ok(LineAction::Skip) => {
                    if n > 0 {
                        lemma_scan_progress(
                            source,
                            index,
                            chunks,
                            by_start,
                            target_begin,
                            target_end,
                            after,
                        );
                    }
                },
                Ok(LineAction::NextChunk) => {
                    lemma_scan_progress(
                        source,
                        index,
                        chunks,
                        by_start,
                        target_begin,
                        target_end,
                        ScanState {
                            coffset: place.0,
                            uoffset: place.1,
                            current: st.current + 1,
                            first_scan: true,
                        },
                    );
                },
                _ => {},
            }
        }
    }
}

/// All that the reads of a scan give until they give nothing more, or the
/// error of the first read that fails.
pub open spec fn scan_all(
    source: Seq<u8>,
    index: TabixModel,
    chunks: Seq<(u64, u64)>,
    by_start: bool,
    target_begin: u64,
    target_end: u64,
    st: ScanState,
) -> Result<Seq<(u64, u64, Seq<u8>)>, BGZFError>
    decreases
            chunks.len() - st.current,
            if st.first_scan {
                1nat
            } else {
                0nat
            },
            data_at(source, st.coffset, st.uoffset).len(),
{
    let (outcome, after) = scan(source, index, chunks, by_start, target_begin, target_end, st);
    match outcome {
        Ok(Some(entry)) => {
            proof {
                lemma_scan_progress(
                    source,
                    index,
                    chunks,
                    by_start,
                    target_begin,
                    target_end,
                    st,
                );
            }
            match scan_all(source, index, chunks, by_start, target_begin, target_end, after) {
                Ok(more) => Ok(seq![entry] + more),
                Err(e) => Err(e),
            }
        },
        Ok(None) => Ok(Seq::empty()),
        Err(e) => Err(e),
    }
}

/// The lines of a chunk: the lines that stand in the data from the place
/// at offset `uoffset` of the block at `coffset` on, up to the first line
/// that starts at or after the virtual file offset `end`.
pub open spec fn chunk_lines(source: Seq<u8>, coffset: int, uoffset: int, end: u64) -> Seq<Seq<u8>>
    decreases data_at(source, coffset, uoffset).len(),
{
    let rest = data_at(source, coffset, uoffset);
    if rest.len() == 0 || vfo_of(coffset as u64, uoffset as u64) >= end {
        Seq::empty()
    } else {
        let n = line_length(rest, NEWLINE);
        let place = advance(source, coffset, uoffset, n);
        proof {
            lemma_line_length_bound(rest, NEWLINE);
            lemma_advance_data(source, coffset, uoffset, n);
        }
        seq![rest.take(n)] + chunk_lines(source, place.0, place.1, end)
    }
}

/// What the lines of one chunk give to the answer: each record of the
/// answer with its range and its line, up to the first record that starts
/// after the target; the error of the first record that cannot be read, if
/// one stands before that.
pub open spec fn emitted(
    lines: Seq<Seq<u8>>,
    index: TabixModel,
    by_start: bool,
    target_begin: u64,
    target_end: u64,
) -> Result<Seq<(u64, u64, Seq<u8>)>, BGZFError>
    decreases lines.len(),
{
    if lines.len() == 0 {
        Ok(Seq::empty())
    } else {
        match line_action(lines[0], index, by_start, target_begin, target_end) {
            Ok(LineAction::Emit(start, end)) => match emitted(
                lines.skip(1),
                index,
                by_start,
                target_begin,
                target_end,
            ) {
                Ok(more) => Ok(seq![(start, end, lines[0])] + more),
                Err(e) => Err(e),
            },
            Ok(LineAction::Skip) => emitted(
                lines.skip(1),
                index,
                by_start,
                target_begin,
                target_end,
            ),
            Ok(LineAction::NextChunk) => Ok(Seq::empty()),
            Err(e) => Err(e),
        }
    }
}

/// The records of a first part of an answer followed by those of the rest.
pub open spec fn followed_by(
    here: Result<Seq<(u64, u64, Seq<u8>)>, BGZFError>,
    rest: Result<Seq<(u64, u64, Seq<u8>)>, BGZFError>,
) -> Result<Seq<(u64, u64, Seq<u8>)>, BGZFError> {
    match here {
        Ok(first) => match rest {
            Ok(more) => Ok(first + more),
            Err(e) => Err(e),
        },
        Err(e) => Err(e),
    }
}

/// The answer that the chunks from place `from` of the chunk list on give:
/// for each chunk in turn, what the lines from its beginning to its end
/// give.
pub open spec fn fetched(
    source: Seq<u8>,
    index: TabixModel,
    chunks: Seq<(u64, u64)>,
    by_start: bool,
    target_begin: u64,
    target_end: u64,
    from: nat,
) -> Result<Seq<(u64, u64, Seq<u8>)>, BGZFError>
    decreases chunks.len() - from,
{
    if from >= chunks.len() {
        Ok(Seq::empty())
    } else {
        match seek_place(source, chunks[from as int].0) {
            Ok((coffset, uoffset)) => followed_by(
                emitted(
                    chunk_lines(source, coffset, uoffset, chunks[from as int].1),
                    index,
                    by_start,
                    target_begin,
                    target_end,
                ),
                fetched(source, index, chunks, by_start, target_begin, target_end, from + 1),
            ),
            Err(e) => Err(e),
        }
    }
}

/// Whether no broken block stands after the beginning of any chunk from
/// place `from` of the chunk list on.
pub open spec fn chunks_intact(source: Seq<u8>, chunks: Seq<(u64, u64)>, from: nat) -> bool {
    forall|i: int|
        from <= i < chunks.len() ==> (seek_place(source, (#[trigger] chunks[i]).0) matches Ok(
            (coffset, uoffset),
        ) ==> intact(source.skip(coffset)))
}

/// What is left of the answer of a scan: what is left of the chunk that
/// the scan is in, and then the chunks after it.
pub open spec fn left_of_answer(
    source: Seq<u8>,
    index: TabixModel,
    chunks: Seq<(u64, u64)>,
    by_start: bool,
    target_begin: u64,
    target_end: u64,
    st: ScanState,
) -> Result<Seq<(u64, u64, Seq<u8>)>, BGZFError> {
    if st.first_scan || st.current >= chunks.len() {
        fetched(source, index, chunks, by_start, target_begin, target_end, st.current)
    } else {
        followed_by(
            emitted(
                chunk_lines(source, st.coffset, st.uoffset, chunks[st.current as int].1),
                index,
                by_start,
                target_begin,
                target_end,
            ),
            fetched(source, index, chunks, by_start, target_begin, target_end, st.current + 1),
        )
    }
}

/// In a stream without a broken block, the reads of a scan give, chunk by
/// chunk and line by line, what the lines of the chunks give to the
/// answer.
pub proof fn lemma_scan_gives_the_answer(
    source: Seq<u8>,
    index: TabixModel,
    chunks: Seq<(u64, u64)>,
    by_start: bool,
    target_begin: u64,
    target_end: u64,
    st: ScanState,
)
    requires
        chunks_intact(source, chunks, st.current + 1),
        st.current < chunks.len() ==> if st.first_scan {
            chunks_intact(source, chunks, st.current)
        } else {
            intact(source.skip(st.coffset))
        },
    ensures
        scan_all(source, index, chunks, by_start, target_begin, target_end, st) == left_of_answer(
            source,
            index,
            chunks,
            by_start,
            target_begin,
            target_end,
            st,
        ),
    decreases
            chunks.len() - st.current,
            if st.first_scan {
                1nat
            } else {
                0nat
            },
            data_at(source, st.coffset, st.uoffset).len(),
{
    let all = scan_all(source, index, chunks, by_start, target_begin, target_end, st);
    let later = fetched(source, index, chunks, by_start, target_begin, target_end, st.current + 1);
    if st.current >= chunks.len() {
    } else if st.first_scan {
        assert(chunks[st.current as int] == chunks[st.current as int]);
        match seek_place(source, chunks[st.current as int].0) {
            Ok((coffset, uoffset)) => {
                let sought = ScanState { coffset, uoffset, current: st.current, first_scan: false };
                lemma_scan_gives_the_answer(
                    source,
                    index,
                    chunks,
                    by_start,
                    target_begin,
                    target_end,
                    sought,
                );
                assert(all == scan_all(
                    source,
                    index,
                    chunks,
                    by_start,
                    target_begin,
                    target_end,
                    sought,
                ));
            },
            Err(_) => {},
        }
    } else {
        let end = chunks[st.current as int].1;
        let rest = data_at(source, st.coffset, st.uoffset);
        let n = line_length(rest, NEWLINE);
        let line = rest.take(n);
        let place = advance(source, st.coffset, st.uoffset, n);
        let after = ScanState {
            coffset: place.0,
            uoffset: place.1,
            current: st.current,
            first_scan: false,
        };
        let onward = ScanState {
            coffset: place.0,
            uoffset: place.1,
            current: st.current + 1,
            first_scan: true,
        };
        let lines = chunk_lines(source, st.coffset, st.uoffset, end);
        lemma_line_length_bound(rest, NEWLINE);
        if vfo_of(st.coffset as u64, st.uoffset as u64) >= end {
            let next = ScanState {
                coffset: st.coffset,
                uoffset: st.uoffset,
                current: st.current + 1,
                first_scan: true,
            };
            lemma_scan_gives_the_answer(
                source,
                index,
                chunks,
                by_start,
                target_begin,
                target_end,
                next,
            );
            assert(all == scan_all(
                source,
                index,
                chunks,
                by_start,
                target_begin,
                target_end,
                next,
            ));
            match later {
                Ok(more) => {
                    assert(Seq::<(u64, u64, Seq<u8>)>::empty() + more =~= more);
                },
                Err(_) => {},
            }
        } else if rest.len() == 0 {
            assert(line =~= Seq::<u8>::empty());
            lemma_scan_gives_the_answer(
                source,
                index,
                chunks,
                by_start,
                target_begin,
                target_end,
                onward,
            );
            assert(all == scan_all(
                source,
                index,
                chunks,
                by_start,
                target_begin,
                target_end,
                onward,
            ));
            match later {
                Ok(more) => {
                    assert(Seq::<(u64, u64, Seq<u8>)>::empty() + more =~= more);
                },
                Err(_) => {},
            }
        } else {
            lemma_advance_data(source, st.coffset, st.uoffset, n);
            let more_lines = chunk_lines(source, place.0, place.1, end);
            assert(lines == seq![line] + more_lines);
            assert(lines[0] == line);
            assert(lines.skip(1) =~= more_lines);
            match line_action(line, index, by_start, target_begin, target_end) {
                Ok(LineAction::Emit(start, stop)) => {
                    lemma_scan_gives_the_answer(
                        source,
                        index,
                        chunks,
                        by_start,
                        target_begin,
                        target_end,
                        after,
                    );
                    match emitted(more_lines, index, by_start, target_begin, target_end) {
                        Ok(here) => match later {
                            Ok(more) => {
                                assert(seq![(start, stop, line)] + (here + more) =~= (seq![
                                    (start, stop, line),
                                ] + here) + more);
                            },
                            Err(_) => {},
                        },
                        Err(_) => {},
                    }
                },
                Ok(LineAction::Skip) => {
                    lemma_scan_gives_the_answer(
                        source,
                        index,
                        chunks,
                        by_start,
                        target_begin,
                        target_end,
                        after,
                    );
                    assert(all == scan_all(
                        source,
                        index,
                        chunks,
                        by_start,
                        target_begin,
                        target_end,
                        after,
                    ));
                },
                Ok(LineAction::NextChunk) => {
                    lemma_scan_gives_the_answer(
                        source,
                        index,
                        chunks,
                        by_start,
                        target_begin,
                        target_end,
                        onward,
                    );
                    assert(all == scan_all(
                        source,
                        index,
                        chunks,
                        by_start,
                        target_begin,
                        target_end,
                        onward,
                    ));
                    match later {
                        Ok(more) => {
                            assert(Seq::<(u64, u64, Seq<u8>)>::empty() + more =~= more);
                        },
                        Err(_) => {},
                    }
                },
                Err(_) => {},
            }
        }
    }
}

/// Whether `line` is a comment: whether it starts with the comment
/// character of the index.
pub open spec fn is_comment(line: Seq<u8>, index: TabixModel) -> bool {
    line.len() > 0 && line[0] == (index.meta % 256) as u8
}

/// Whether `line` holds a record whose range can be read.
pub open spec fn is_record(line: Seq<u8>, index: TabixModel) -> bool {
    line.len() > 0 && !is_comment(line, index) && record_of(line, index) is Ok
}

/// Whether each of the lines is a comment or a record, and the records
/// stand in ascending order of their starts.
pub open spec fn lines_in_order(lines: Seq<Seq<u8>>, index: TabixModel) -> bool {
    &&& forall|i: int|
        0 <= i < lines.len() ==> is_comment(#[trigger] lines[i], index) || is_record(
            lines[i],
            index,
        )
    &&& forall|i: int, j: int|
        0 <= i <= j < lines.len() && is_record(#[trigger] lines[i], index) && is_record(
            #[trigger] lines[j],
            index,
        ) ==> record_of(lines[i], index).unwrap().0 <= record_of(lines[j], index).unwrap().0
}

/// The records among the lines that belong to the answer, each with its
/// range and its line, in the order they stand in.
pub open spec fn hits(
    lines: Seq<Seq<u8>>,
    index: TabixModel,
    by_start: bool,
    target_begin: u64,
    target_end: u64,
) -> Seq<(u64, u64, Seq<u8>)>
    decreases lines.len(),
{
    if lines.len() == 0 {
        Seq::empty()
    } else {
        let later = hits(lines.skip(1), index, by_start, target_begin, target_end);
        if is_record(lines[0], index) && is_hit(
            by_start,
            target_begin,
            target_end,
            record_of(lines[0], index).unwrap().0,
            record_of(lines[0], index).unwrap().1,
        ) {
            seq![
                (
                    record_of(lines[0], index).unwrap().0,
                    record_of(lines[0], index).unwrap().1,
                    lines[0],
                ),
            ] + later
        } else {
            later
        }
    }
}

/// What is left of lines in order after the first of them is in order
/// too.
proof fn lemma_later_lines_in_order(lines: Seq<Seq<u8>>, index: TabixModel)
    requires
        lines.len() > 0,
        lines_in_order(lines, index),
    ensures
        lines_in_order(lines.skip(1), index),
{
    let rest = lines.skip(1);
    assert forall|i: int| 0 <= i < rest.len() implies is_comment(#[trigger] rest[i], index)
        || is_record(rest[i], index) by {
        assert(rest[i] == lines[i + 1]);
    }
    assert forall|i: int, j: int|
        0 <= i <= j < rest.len() && is_record(#[trigger] rest[i], index) && is_record(
            #[trigger] rest[j],
            index,
        ) implies record_of(rest[i], index).unwrap().0 <= record_of(rest[j], index).unwrap().0 by {
        assert(rest[i] == lines[i + 1] && rest[j] == lines[j + 1]);
    }
}

/// Among lines whose records all start at or after `from`, none belongs
/// to the answer if a record that starts at `from` ends the chunk.
proof fn lemma_no_later_hits(
    lines: Seq<Seq<u8>>,
    index: TabixModel,
    by_start: bool,
    target_begin: u64,
    target_end: u64,
    from: u64,
)
    requires
        forall|i: int|
            0 <= i < lines.len() && is_record(#[trigger] lines[i], index) ==> from <= record_of(
                lines[i],
                index,
            ).unwrap().0,
        if by_start {
            target_end <= from
        } else {
            target_end < from
        },
    ensures
        hits(lines, index, by_start, target_begin, target_end) == Seq::<
            (u64, u64, Seq<u8>),
        >::empty(),
    decreases lines.len(),
{
    if lines.len() > 0 {
        let rest = lines.skip(1);
        assert(lines[0] == lines[0]);
        assert forall|i: int| 0 <= i < rest.len() && is_record(#[trigger] rest[i], index) implies from
            <= record_of(rest[i], index).unwrap().0 by {
            assert(rest[i] == lines[i + 1]);
        }
        lemma_no_later_hits(rest, index, by_start, target_begin, target_end, from);
    }
}

/// Of lines in order a scan emits every record that belongs to the answer
/// and no other, in the order they stand in: to stop at the first record
/// that starts after the target loses nothing.
pub proof fn lemma_emitted_are_the_hits(
    lines: Seq<Seq<u8>>,
    index: TabixModel,
    by_start: bool,
    target_begin: u64,
    target_end: u64,
)
    requires
        lines_in_order(lines, index),
    ensures
        emitted(lines, index, by_start, target_begin, target_end) == Ok::<
            Seq<(u64, u64, Seq<u8>)>,
            BGZFError,
        >(hits(lines, index, by_start, target_begin, target_end)),
    decreases lines.len(),
{
    if lines.len() > 0 {
        let rest = lines.skip(1);
        lemma_later_lines_in_order(lines, index);
        lemma_emitted_are_the_hits(rest, index, by_start, target_begin, target_end);
        assert(is_comment(lines[0], index) || is_record(lines[0], index));
        if is_record(lines[0], index) {
            let (start, end) = record_of(lines[0], index).unwrap();
            if verdict_of(by_start, target_begin, target_end, start, end) == Verdict::NextChunk {
                assert forall|i: int|
                    0 <= i < rest.len() && is_record(#[trigger] rest[i], index) implies start
                    <= record_of(rest[i], index).unwrap().0 by {
                    assert(rest[i] == lines[i + 1]);
                }
                lemma_no_later_hits(rest, index, by_start, target_begin, target_end, start);
            }
        }
    }
}

/// Whether each chunk from place `from` of the chunk list on begins at a
/// place in the data, and its lines are in order.
pub open spec fn chunks_in_order(
    source: Seq<u8>,
    index: TabixModel,
    chunks: Seq<(u64, u64)>,
    from: nat,
) -> bool {
    forall|i: int|
        from <= i < chunks.len() ==> match seek_place(source, (#[trigger] chunks[i]).0) {
            Ok((coffset, uoffset)) => lines_in_order(
                chunk_lines(source, coffset, uoffset, chunks[i].1),
                index,
            ),
            Err(_) => false,
        }
}

/// The records of the chunks from place `from` of the chunk list on that
/// belong to the answer, chunk by chunk, and in the order they stand in
/// within a chunk.
pub open spec fn answer(
    source: Seq<u8>,
    index: TabixModel,
    chunks: Seq<(u64, u64)>,
    by_start: bool,
    target_begin: u64,
    target_end: u64,
    from: nat,
) -> Seq<(u64, u64, Seq<u8>)>
    decreases chunks.len() - from,
{
    if from >= chunks.len() {
        Seq::empty()
    } else {
        let later = answer(source, index, chunks, by_start, target_begin, target_end, from + 1);
        match seek_place(source, chunks[from as int].0) {
            Ok((coffset, uoffset)) => hits(
                chunk_lines(source, coffset, uoffset, chunks[from as int].1),
                index,
                by_start,
                target_begin,
                target_end,
            ) + later,
            Err(_) => later,
        }
    }
}

/// Where the lines of each chunk are in order, the chunks give every
/// record of theirs that belongs to the answer and no other.
pub proof fn lemma_fetched_is_the_answer(
    source: Seq<u8>,
    index: TabixModel,
    chunks: Seq<(u64, u64)>,
    by_start: bool,
    target_begin: u64,
    target_end: u64,
    from: nat,
)
    requires
        chunks_in_order(source, index, chunks, from),
    ensures
        fetched(source, index, chunks, by_start, target_begin, target_end, from) == Ok::<
            Seq<(u64, u64, Seq<u8>)>,
            BGZFError,
        >(answer(source, index, chunks, by_start, target_begin, target_end, from)),
    decreases chunks.len() - from,
{
    if from < chunks.len() {
        assert(chunks[from as int] == chunks[from as int]);
        lemma_fetched_is_the_answer(
            source,
            index,
            chunks,
            by_start,
            target_begin,
            target_end,
            from + 1,
        );
        match seek_place(source, chunks[from as int].0) {
            Ok((coffset, uoffset)) => {
                lemma_emitted_are_the_hits(
                    chunk_lines(source, coffset, uoffset, chunks[from as int].1),
                    index,
                    by_start,
                    target_begin,
                    target_end,
                );
            },
            Err(_) => {},
        }
    }
}

/// The records as their range and their line.
pub open spec fn entry_views(entries: Seq<TabixEntry>) -> Seq<(u64, u64, Seq<u8>)> {
    Seq::new(entries.len(), |i: int| (entries[i].begin, entries[i].end, entries[i].data@))
}

/// Why a data file and its index cannot be opened together, if they
/// cannot: the first block of the data is broken, the index cannot be
/// read, the index knows no reference sequence or has no linear index for
/// the first one, or the first entry of that linear index is no place in
/// the data.
pub open spec fn open_error(data: Seq<u8>, index_data: Seq<u8>) -> Option<BGZFError> {
    if data.len() > 0 && block_of(data) is None {
        Some(BGZFError::MalformedBlock)
    } else {
        match tabix_of_file(gunzipped(index_data).0, gunzipped(index_data).1) {
            Ok(index) => if index.seq_index.len() == 0 || index.seq_index[0].interval.len() == 0 {
                Some(BGZFError::OutOfIndex)
            } else {
                let vfo = index.seq_index[0].interval[0];
                if vfo_coffset(vfo) >= data.len() {
                    Some(BGZFError::InvalidVFO)
                } else {
                    match block_of(data.skip(vfo_coffset(vfo) as int)) {
                        Some((payload, total)) => if vfo_uoffset(vfo) >= payload.len() {
                            Some(BGZFError::InvalidVFO)
                        } else {
                            None
                        },
                        None => Some(BGZFError::MalformedBlock),
                    }
                }
            },
            Err(e) => Some(e),
        }
    }
}

/// A BGZF file with its Tabix index, from which the records of a region
/// are fetched.
pub struct TabixFile {
    pub reader: BGZFReader,
    pub tabix: TabixIndex,
    target_rid: u32,
    target_begin: u64,
    target_end: u64,
    chunks: Vec<(u64, u64)>,
    current_chunk: usize,
    first_scan: bool,
    scan_by_start_position_mode: bool,
}

impl TabixFile {
    /// The invariant of the scanner.
    pub closed spec fn wf(&self) -> bool {
        self.reader.wf() && self.current_chunk <= self.chunks@.len()
    }

    /// The index of the file.
    pub closed spec fn index(&self) -> TabixModel {
        self.tabix@
    }

    /// The compressed data of the file.
    pub closed spec fn source(&self) -> Seq<u8> {
        self.reader.source()
    }

    /// The reference sequence and the range that were asked for last.
    pub closed spec fn target(&self) -> (u32, u64, u64) {
        (self.target_rid, self.target_begin, self.target_end)
    }

    /// The ranges of virtual file offsets that the scan goes through.
    pub closed spec fn chunk_list(&self) -> Seq<(u64, u64)> {
        self.chunks@
    }

    /// Whether records are chosen by their start alone, and not by overlap.
    pub closed spec fn by_start(&self) -> bool {
        self.scan_by_start_position_mode
    }

    /// Where the scan is.
    pub closed spec fn state(&self) -> ScanState {
        ScanState {
            coffset: self.reader.coffset() as int,
            uoffset: self.reader.uoffset() as int,
            current: self.current_chunk as nat,
            first_scan: self.first_scan,
        }
    }

    /// What the next read gives, and where the scan is after it.
    pub open spec fn next(&self) -> (Result<Option<(u64, u64, Seq<u8>)>, BGZFError>, ScanState) {
        scan(
            self.source(),
            self.index(),
            self.chunk_list(),
            self.by_start(),
            self.target().1,
            self.target().2,
            self.state(),
        )
    }

    /// What all the reads that are left give.
    pub open spec fn all(&self) -> Result<Seq<(u64, u64, Seq<u8>)>, BGZFError> {
        scan_all(
            self.source(),
            self.index(),
            self.chunk_list(),
            self.by_start(),
            self.target().1,
            self.target().2,
            self.state(),
        )
    }

    /// Whether a scan at `self` is further on than a scan at `before`: in
    /// a later chunk, or in the same chunk and at its start when `before`
    /// was not yet, or with fewer bytes left to read.
    pub open spec fn further_than(&self, before: &TabixFile) -> bool {
        scan_further(self.source(), self.state(), before.state())
    }

    /// Opens a BGZF file and its index, both given as the bytes of their
    /// files, and goes to the first record of the first reference
    /// sequence.
    pub fn new(data: Vec<u8>, index_data: &[u8]) -> (r: Result<TabixFile, BGZFError>)
        ensures
            match r {
                Ok(file) => {
                    &&& open_error(data@, index_data@) is None
                    &&& file.wf()
                    &&& file.source() == data@
                    &&& tabix_of_file(gunzipped(index_data@).0, gunzipped(index_data@).1) == Ok::<
                        TabixModel,
                        BGZFError,
                    >(file.index())
                    &&& file.target() == (0u32, 0u64, 0u64)
                    &&& file.chunk_list() == Seq::<(u64, u64)>::empty()
                    &&& !file.by_start()
                    &&& file.state().current == 0
                    &&& file.state().first_scan
                    &&& seek_place(data@, file.index().seq_index[0].interval[0]) == Ok::<
                        (int, int),
                        BGZFError,
                    >((file.state().coffset, file.state().uoffset))
                },
                Err(e) => open_error(data@, index_data@) == Some(e),
            },
    {
        let mut bgz_reader = match BGZFReader::new(data) {
            Ok(reader) => reader,
            Err(e) => {
                return Err(e);
            },
        };
        let index = match TabixIndex::new(index_data) {
            Ok(index) => index,
            Err(e) => {
                return Err(e);
            },
        };
        if index.seq_index.len() == 0 || index.seq_index[0].interval.len() == 0 {
            return Err(BGZFError::OutOfIndex);
        }
        let first = index.seq_index[0].interval[0];
        match bgz_reader.seek_vfo(first) {
            Ok(()) => {},
            Err(e) => {
                return Err(e);
            },
        }
        Ok(
            TabixFile {
                reader: bgz_reader,
                tabix: index,
                target_rid: 0,
                target_begin: 0,
                target_end: 0,
                chunks: Vec::new(),
                current_chunk: 0,
                first_scan: true,
                scan_by_start_position_mode: false,
            },
        )
    }

    /// Asks for the records of reference sequence `rid` that overlap the
    /// zero-based half-open range from `begin` to `end`.
    ///
    /// Fails with `OutOfIndex`, and changes nothing, if the index does not
    /// know `rid`.
    pub fn fetch0(&mut self, rid: u32, begin: u64, end: u64) -> (r: Result<(), BGZFError>)
        requires
            old(self).wf(),
            0 < end <= MAX_POSITION,
        ensures
            final(self).wf(),
            final(self).index() == old(self).index(),
            final(self).source() == old(self).source(),
            match r {
                Ok(()) => {
                    &&& rid < old(self).index().seq_index.len()
                    &&& final(self).target() == (rid, begin, end)
                    &&& final(self).chunk_list() == region_chunks_spec(
                        old(self).index().seq_index[rid as int],
                        begin as int,
                        end as int,
                    )
                    &&& final(self).state() == (ScanState {
                        current: 0,
                        first_scan: true,
                        ..old(self).state()
                    })
                    &&& !final(self).by_start()
                },
                Err(e) => {
                    &&& e == BGZFError::OutOfIndex
                    &&& rid >= old(self).index().seq_index.len()
                    &&& *final(self) == *old(self)
                },
            },
    {
        if rid as usize >= self.tabix.seq_index.len() {
            return Err(BGZFError::OutOfIndex);
        }
        let chunks = self.tabix.region_chunks(rid, begin, end);
        self.target_rid = rid;
        self.target_begin = begin;
        self.target_end = end;
        self.chunks = chunks;
        self.current_chunk = 0;
        self.first_scan = true;
        self.scan_by_start_position_mode = false;
        Ok(())
    }

    /// Asks for the records of reference sequence `rid` that start in the
    /// zero-based half-open range from `start_begin` to `start_end`.
    ///
    /// Fails with `OutOfIndex`, and changes nothing, if the index does not
    /// know `rid` or its linear index ends before `start_begin`.
    pub fn fetch_start0(&mut self, rid: u32, start_begin: u64, start_end: u64) -> (r: Result<
        (),
        BGZFError,
    >)
        requires
            old(self).wf(),
        ensures
            final(self).wf(),
            final(self).index() == old(self).index(),
            final(self).source() == old(self).source(),
            match r {
                Ok(()) => {
                    &&& start_chunks_spec(old(self).index(), rid, start_begin, start_end) is Ok
                    &&& final(self).target() == (rid, start_begin, start_end)
                    &&& final(self).chunk_list() == seq![
                        start_chunks_spec(
                            old(self).index(),
                            rid,
                            start_begin,
                            start_end,
                        ).unwrap(),
                    ]
                    &&& final(self).state() == (ScanState {
                        current: 0,
                        first_scan: true,
                        ..old(self).state()
                    })
                    &&& final(self).by_start()
                },
                Err(e) => {
                    &&& start_chunks_spec(old(self).index(), rid, start_begin, start_end) == Err::<
                        (u64, u64),
                        BGZFError,
                    >(e)
                    &&& *final(self) == *old(self)
                },
            },
    {
        let chunk = match self.tabix.start_chunks(rid, start_begin, start_end) {
            Ok(chunk) => chunk,
            Err(e) => {
                return Err(e);
            },
        };
        let mut chunks: Vec<(u64, u64)> = Vec::new();
        chunks.push(chunk);
        assert(chunks@ =~= seq![chunk]);
        self.target_rid = rid;
        self.target_begin = start_begin;
        self.target_end = start_end;
        self.chunks = chunks;
        self.current_chunk = 0;
        self.first_scan = true;
        self.scan_by_start_position_mode = true;
        Ok(())
    }

    /// Reads the next record of the answer into `data` and gives its
    /// zero-based half-open range, or gives nothing once all chunks have
    /// been gone through.
    ///
    /// The scan goes to the start of a chunk, reads line by line up to the
    /// end of the chunk, and passes over comments and over records outside
    /// the answer.  It leaves a chunk early at the first record that starts
    /// after the target, and at the end of the stream.
    pub fn read(&mut self, data: &mut Vec<u8>) -> (r: Result<Option<(u64, u64)>, BGZFError>)
        requires
            old(self).wf(),
        ensures
            final(self).wf(),
            final(self).index() == old(self).index(),
            final(self).source() == old(self).source(),
            final(self).target() == old(self).target(),
            final(self).chunk_list() == old(self).chunk_list(),
            final(self).by_start() == old(self).by_start(),
            old(self).state().current <= final(self).state().current <= final(self).chunk_list().len(),
            final(self).state() == old(self).next().1,
            match r {
                Ok(Some((start, end))) => old(self).next().0 == Ok::<
                    Option<(u64, u64, Seq<u8>)>,
                    BGZFError,
                >(Some((start, end, final(data)@))),
                Ok(None) => old(self).next().0 == Ok::<Option<(u64, u64, Seq<u8>)>, BGZFError>(
                    None,
                ),
                Err(e) => old(self).next().0 == Err::<Option<(u64, u64, Seq<u8>)>, BGZFError>(e),
            },
            match r {
                Ok(Some((start, end))) => {
                    &&& line_action(
                        final(data)@,
                        final(self).index(),
                        final(self).by_start(),
                        final(self).target().1,
                        final(self).target().2,
                    ) == Ok::<LineAction, BGZFError>(LineAction::Emit(start, end))
                    &&& final(self).state().current < final(self).chunk_list().len()
                    &&& final(self).further_than(old(self))
                },
                Ok(None) => final(self).state().current == final(self).chunk_list().len(),
                Err(e) => e == BGZFError::MalformedBlock || e == BGZFError::InvalidVFO || e
                    == BGZFError::ParseRecord || e == BGZFError::Unsupported,
            },
    {
        loop
            invariant
                self.wf(),
                self.index() == old(self).index(),
                self.source() == old(self).source(),
                self.target() == old(self).target(),
                self.chunk_list() == old(self).chunk_list(),
                self.by_start() == old(self).by_start(),
                old(self).state().current <= self.state().current,
                self.next() == old(self).next(),
                self.state() == old(self).state() || self.further_than(old(self)),
            decreases
                    self.chunks@.len() - self.current_chunk,
                    if self.first_scan {
                        1nat
                    } else {
                        0nat
                    },
                    self.reader.remaining().len(),
        {
            if self.current_chunk >= self.chunks.len() {
                return Ok(None);
            }
            let chunk = self.chunks[self.current_chunk];
            if self.first_scan {
                match self.reader.seek_vfo(chunk.0) {
                    Ok(()) => {},
                    Err(e) => {
                        return Err(e);
                    },
                }
                self.first_scan = false;
            } else if self.reader.tell_vfo() >= chunk.1 {
                self.first_scan = true;
                self.current_chunk += 1;
            } else {
                data.clear();
                let ghost rest = self.reader.remaining();
                match self.reader.read_until(NEWLINE, data) {
                    Ok(_) => {},
                    Err(e) => {
                        proof {
                            lemma_line_length(rest, rest.len() as int, NEWLINE);
                        }
                        return Err(e);
                    },
                }
                assert(data@ =~= Seq::<u8>::empty() + data@);
                match self.tabix.scan_line(
                    data.as_slice(),
                    self.scan_by_start_position_mode,
                    self.target_begin,
                    self.target_end,
                ) {
                    Ok(LineAction::Emit(start, end)) => {
                        return Ok(Some((start, end)));
                    },
                    Ok(LineAction::Skip) => {},
                    Ok(LineAction::NextChunk) => {
                        self.first_scan = true;
                        self.current_chunk += 1;
                    },
                    Err(e) => {
                        return Err(e);
                    },
                }
            }
        }
    }

    /// At the start of a chunk, in a stream without a broken block and
    /// with the lines of each chunk in order, the reads that are left give
    /// every record of the chunks that are left that belongs to the answer
    /// and no other: in overlap mode the records that overlap the target,
    /// in start mode those that start in it.
    pub proof fn lemma_reads_give_the_answer(&self)
        requires
            self.wf(),
            self.state().first_scan,
            chunks_intact(self.source(), self.chunk_list(), self.state().current),
            chunks_in_order(self.source(), self.index(), self.chunk_list(), self.state().current),
        ensures
            self.all() == Ok::<Seq<(u64, u64, Seq<u8>)>, BGZFError>(
                answer(
                    self.source(),
                    self.index(),
                    self.chunk_list(),
                    self.by_start(),
                    self.target().1,
                    self.target().2,
                    self.state().current,
                ),
            ),
    {
        lemma_scan_gives_the_answer(
            self.source(),
            self.index(),
            self.chunk_list(),
            self.by_start(),
            self.target().1,
            self.target().2,
            self.state(),
        );
        lemma_fetched_is_the_answer(
            self.source(),
            self.index(),
            self.chunk_list(),
            self.by_start(),
            self.target().1,
            self.target().2,
            self.state().current,
        );
    }

    /// Reads all records of the answer that are left.
    pub fn read_all(&mut self) -> (r: Result<Vec<TabixEntry>, BGZFError>)
        requires
            old(self).wf(),
        ensures
            final(self).wf(),
            final(self).index() == old(self).index(),
            final(self).source() == old(self).source(),
            final(self).target() == old(self).target(),
            final(self).chunk_list() == old(self).chunk_list(),
            final(self).by_start() == old(self).by_start(),
            match r {
                Ok(entries) => old(self).all() == Ok::<Seq<(u64, u64, Seq<u8>)>, BGZFError>(
                    entry_views(entries@),
                ),
                Err(e) => old(self).all() == Err::<Seq<(u64, u64, Seq<u8>)>, BGZFError>(e),
            },
            match r {
                Ok(entries) => {
                    &&& final(self).state().current == final(self).chunk_list().len()
                    &&& forall|i: int|
                        0 <= i < entries@.len() ==> line_action(
                            (#[trigger] entries@[i]).data@,
                            final(self).index(),
                            final(self).by_start(),
                            final(self).target().1,
                            final(self).target().2,
                        ) == Ok::<LineAction, BGZFError>(
                            LineAction::Emit(entries@[i].begin, entries@[i].end),
                        )
                },
                Err(e) => e == BGZFError::MalformedBlock || e == BGZFError::InvalidVFO || e
                    == BGZFError::ParseRecord || e == BGZFError::Unsupported,
            },
    {
        let mut entries: Vec<TabixEntry> = Vec::new();
        let mut line: Vec<u8> = Vec::new();
        proof {
            match self.all() {
                Ok(more) => {
                    assert(entry_views(entries@) + more =~= more);
                },
                Err(_) => {},
            }
        }
        loop
            invariant
                self.wf(),
                self.index() == old(self).index(),
                self.source() == old(self).source(),
                self.target() == old(self).target(),
                self.chunk_list() == old(self).chunk_list(),
                self.by_start() == old(self).by_start(),
                self.state().current <= self.chunk_list().len(),
                old(self).all() == match self.all() {
                    Ok(more) => Ok(entry_views(entries@) + more),
                    Err(e) => Err(e),
                },
                forall|i: int|
                    0 <= i < entries@.len() ==> line_action(
                        (#[trigger] entries@[i]).data@,
                        self.index(),
                        self.by_start(),
                        self.target().1,
                        self.target().2,
                    ) == Ok::<LineAction, BGZFError>(
                        LineAction::Emit(entries@[i].begin, entries@[i].end),
                    ),
            decreases
                    self.chunks@.len() - self.current_chunk,
                    if self.first_scan {
                        1nat
                    } else {
                        0nat
                    },
                    self.reader.remaining().len(),
        {
            let ghost before = entries@;
            match self.read(&mut line) {
                Ok(Some((begin, end))) => {
                    let data = copy_range(line.as_slice(), 0, line.len());
                    assert(data@ =~= line@);
                    entries.push(TabixEntry { data, begin, end });
                    proof {
                        assert(entry_views(entries@) =~= entry_views(before).push(
                            (begin, end, line@),
                        ));
                        match self.all() {
                            Ok(more) => {
                                assert(entry_views(before) + (seq![(begin, end, line@)] + more)
                                    =~= entry_views(entries@) + more);
                            },
                            Err(_) => {},
                        }
                    }
                },
                Ok(None) => {
                    assert(entry_views(entries@) + Seq::<(u64, u64, Seq<u8>)>::empty()
                        =~= entry_views(entries@));
                    return Ok(entries);
                },
                Err(e) => {
                    return Err(e);
                },
            }
        }
    }
}

} // verus!
