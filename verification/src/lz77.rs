//! LZ77 compression and decompression over token streams.

use vstd::prelude::*;
use vstd::slice::slice_subrange;
use vstd::string::StringSliceAdditionalSpecFns;

use crate::matchmap::MatchMap;

verus! {

/// One unit of compressed output.
#[derive(Clone, Copy, Debug, PartialEq, Eq, Structural)]
pub enum Token {
    /// A literal byte, passed through unchanged.
    Literal(u8),
    /// A back-reference: go back `offset` bytes in the output produced so far
    /// and copy `length` bytes forward from there.
    Match {
        /// The distance to go back in the output stream.
        offset: usize,
        /// How much data to copy from the point the offset refers to.
        length: usize,
    },
}

/// The length of a token: literals stand for 1 output byte, matches for
/// `length` of them.
pub open spec fn spec_token_len(t: Token) -> int {
    match t {
        Token::Literal(_) => 1,
        Token::Match { length, .. } => length as int,
    }
}

impl Token {
    /// Helper for creating a match without enum boilerplate.
    pub fn new_match(offset: usize, length: usize) -> (r: Self)
        ensures
            r == (Token::Match { offset, length }),
    {
        Token::Match { offset, length }
    }

    /// Converts a string into literal tokens, one per byte.
    pub fn literals(s: &str) -> (r: Vec<Token>)
        ensures
            r@.len() == s.spec_bytes().len(),
            forall|i: int| 0 <= i < r@.len() ==> r@[i] == Token::Literal(s.spec_bytes()[i]),
    {
        let bytes = s.as_bytes();
        let mut r: Vec<Token> = Vec::new();
        let mut i: usize = 0;
        while i < bytes.len()
            invariant
                i <= bytes@.len(),
                bytes@ == s.spec_bytes(),
                r@.len() == i,
                forall|j: int| 0 <= j < i ==> r@[j] == Token::Literal(bytes@[j]),
            decreases bytes@.len() - i,
        {
            r.push(Token::Literal(bytes[i]));
            i += 1;
        }
        r
    }

    /// Returns the length of a token; literals are 1, matches their length.
    pub fn token_len(&self) -> (r: usize)
        ensures
            r as int == spec_token_len(*self),
    {
        match self {
            Token::Literal(_) => 1,
            Token::Match { length, .. } => *length,
        }
    }
}

/// The error types for LZ77; both arise only during decompression.
#[derive(Clone, Copy, Debug, PartialEq, Eq, Structural)]
pub enum Error {
    /// A match referenced data from before the start of the output buffer.
    InvalidOffset {
        /// Where in the output buffer the offset was encountered.
        idx: usize,
        /// The offending offset.
        offset: usize,
    },
    /// The output would have exceeded the configured maximum size.
    MaximumSizeExceeded,
}

/// Settings for the LZ77 algorithm, compression direction.
pub struct CompressionSettings {
    /// The largest backward distance eligible for a match.
    pub max_match_offset: usize,
    /// The shortest match ever emitted; also the length of the byte keys the
    /// match index stores. Must be at least 1.
    pub min_match_len: usize,
    /// How many trailing input bytes are forced to literal encoding.
    pub end_literals: usize,
}

impl Default for CompressionSettings {
    fn default() -> (r: Self)
        ensures
            r == (CompressionSettings {
                max_match_offset: 65536,
                min_match_len: 4,
                end_literals: 12,
            }),
    {
        CompressionSettings { max_match_offset: 64 * 1024, min_match_len: 4, end_literals: 12 }
    }
}

impl CompressionSettings {
    /// Default compression settings for the LZ4 algorithm:
    /// minimum match of 4, 12 literals at the end, max match offset of 64KiB.
    pub fn lz4_default() -> (r: Self)
        ensures
            r == (CompressionSettings {
                max_match_offset: 65536,
                min_match_len: 4,
                end_literals: 12,
            }),
    {
        Self::default()
    }

    /// The defaults, but with no trailing bytes forced to literals.
    pub fn test_default() -> (r: Self)
        ensures
            r == (CompressionSettings {
                max_match_offset: 65536,
                min_match_len: 4,
                end_literals: 0,
            }),
    {
        let mut out = Self::default();
        out.end_literals = 0;
        out
    }
}

/// The default ceiling on reconstructed size: 4 MiB.
pub const DEFAULT_MAX_OUTPUT: usize = 4 * 1024 * 1024;

/// Settings for the LZ77 algorithm, decompression direction.
pub struct DecompressionSettings {
    /// Hard ceiling on the reconstructed size.
    pub max_output_len: usize,
}

impl Default for DecompressionSettings {
    fn default() -> (r: Self)
        ensures
            r == (DecompressionSettings { max_output_len: DEFAULT_MAX_OUTPUT }),
    {
        DecompressionSettings { max_output_len: DEFAULT_MAX_OUTPUT }
    }
}

/// A token a decompressor can replay without reading out of bounds: a match
/// must reach back at least one byte (or copy nothing).
pub open spec fn token_wf(t: Token) -> bool {
    t matches Token::Match { offset, length } ==> offset >= 1 || length == 0
}

/// The bytes a match token appends: starting `offset` back from the end of
/// `out`, bytes are copied and appended one at a time, so a match longer than
/// its offset replicates the repeating pattern it creates.
pub open spec fn spec_match_bytes(out: Seq<u8>, offset: int, length: int) -> Seq<u8>
    decreases length,
{
    if length <= 0 {
        out
    } else {
        spec_match_bytes(out.push(out[out.len() - offset]), offset, length - 1)
    }
}

/// One step of decompression: what replaying `t` on top of `out` yields under
/// the output ceiling `max`.
pub open spec fn spec_apply_token(out: Seq<u8>, t: Token, max: int) -> Result<Seq<u8>, Error> {
    match t {
        Token::Literal(b) => {
            if out.len() + 1 > max {
                Err(Error::MaximumSizeExceeded)
            } else {
                Ok(out.push(b))
            }
        },
        Token::Match { offset, length } => {
            if offset > out.len() {
                Err(Error::InvalidOffset { idx: out.len() as usize, offset })
            } else if out.len() + length > max {
                Err(Error::MaximumSizeExceeded)
            } else {
                Ok(spec_match_bytes(out, offset as int, length as int))
            }
        },
    }
}

/// Replaying a whole token sequence on top of `out`: the completed buffer, or
/// the first error, which aborts the replay with no partial result.
pub open spec fn spec_decode(out: Seq<u8>, tokens: Seq<Token>, max: int) -> Result<Seq<u8>, Error>
    decreases tokens.len(),
{
    if tokens.len() == 0 {
        Ok(out)
    } else {
        match spec_apply_token(out, tokens[0], max) {
            Ok(next) => spec_decode(next, tokens.drop_first(), max),
            Err(e) => Err(e),
        }
    }
}

/// Replays a token sequence into bytes, or fails fast on the first invalid or
/// oversized reference.
pub struct Decompressor {
    source: Vec<Token>,
    output_buf: Vec<u8>,
    settings: DecompressionSettings,
}

impl Decompressor {
    /// The tokens not yet consumed.
    pub closed spec fn source_view(self) -> Seq<Token> {
        self.source@
    }

    /// The output rebuilt so far.
    pub closed spec fn output_view(self) -> Seq<u8> {
        self.output_buf@
    }

    /// The configured ceiling on the output size.
    pub closed spec fn max_output_spec(self) -> usize {
        self.settings.max_output_len
    }

    pub fn new(source: Vec<Token>, settings: DecompressionSettings) -> (r: Self)
        ensures
            r.source_view() == source@,
            r.output_view() == Seq::<u8>::empty(),
            r.max_output_spec() == settings.max_output_len,
    {
        let r = Decompressor { source, settings, output_buf: Vec::new() };
        proof {
            assert(r.output_view() =~= Seq::<u8>::empty());
        }
        r
    }

    /// Consumes the token source front to back, appending to the output
    /// buffer; the result is exactly the replay `spec_decode` describes.
    pub fn decompress(self) -> (r: Result<Vec<u8>, Error>)
        requires
            forall|i: int| 0 <= i < self.source_view().len() ==> token_wf(
                #[trigger] self.source_view()[i],
            ),
            self.output_view().len() <= self.max_output_spec(),
        ensures
            ({
                let d = spec_decode(
                    self.output_view(),
                    self.source_view(),
                    self.max_output_spec() as int,
                );
                match r {
                    Ok(v) => d == Ok::<Seq<u8>, Error>(v@),
                    Err(e) => d == Err::<Seq<u8>, Error>(e),
                }
            }),
    {
        let Decompressor { source, mut output_buf, settings } = self;
        let max = settings.max_output_len;
        let ghost out0 = output_buf@;
        let mut i: usize = 0;
        proof {
            assert(source@.skip(0) =~= source@);
        }
        while i < source.len()
            invariant
                i <= source@.len(),
                source@ == self.source_view(),
                out0 == self.output_view(),
                max == self.max_output_spec(),
                output_buf@.len() <= max,
                forall|j: int| 0 <= j < source@.len() ==> token_wf(#[trigger] source@[j]),
                spec_decode(out0, source@, max as int) == spec_decode(
                    output_buf@,
                    source@.skip(i as int),
                    max as int,
                ),
            decreases source@.len() - i,
        {
            let ghost rest = source@.skip(i as int);
            proof {
                assert(rest[0] == source@[i as int]);
                assert(rest.drop_first() =~= source@.skip(i as int + 1));
            }
            let t = source[i];
            match t {
                Token::Literal(b) => {
                    if output_buf.len() >= max {
                        return Err(Error::MaximumSizeExceeded);
                    }
                    output_buf.push(b);
                },
                Token::Match { offset, length } => {
                    if offset > output_buf.len() {
                        return Err(Error::InvalidOffset { idx: output_buf.len(), offset });
                    }
                    if length > max - output_buf.len() {
                        return Err(Error::MaximumSizeExceeded);
                    }
                    let copy_start = output_buf.len() - offset;
                    let ghost before = output_buf@;
                    let mut k: usize = 0;
                    while k < length
                        invariant
                            k <= length,
                            offset >= 1 || length == 0,
                            offset <= before.len(),
                            copy_start == before.len() - offset,
                            before.len() + length <= max,
                            output_buf@.len() == before.len() + k,
                            spec_match_bytes(before, offset as int, length as int)
                                == spec_match_bytes(output_buf@, offset as int, length - k),
                        decreases length - k,
                    {
                        let b = output_buf[copy_start + k];
                        proof {
                            assert(output_buf@[copy_start + k] == output_buf@[output_buf@.len()
                                - offset]);
                        }
                        output_buf.push(b);
                        k += 1;
                    }
                },
            }
            i += 1;
        }
        proof {
            assert(source@.skip(i as int) =~= Seq::<Token>::empty());
        }
        Ok(output_buf)
    }
}

/// Replays a token sequence from an empty buffer to completion or first error.
pub fn decompress(tokens: Vec<Token>, settings: DecompressionSettings) -> (r: Result<
    Vec<u8>,
    Error,
>)
    requires
        forall|i: int| 0 <= i < tokens@.len() ==> token_wf(#[trigger] tokens@[i]),
    ensures
        ({
            let d = spec_decode(Seq::<u8>::empty(), tokens@, settings.max_output_len as int);
            match r {
                Ok(v) => d == Ok::<Seq<u8>, Error>(v@),
                Err(e) => d == Err::<Seq<u8>, Error>(e),
            }
        }),
{
    let dcmp = Decompressor::new(tokens, settings);
    dcmp.decompress()
}

/// How far the byte runs starting at `i` and at `p` agree: the number of
/// positions `k` from 0 on with `data[p + k] == data[i + k]`, stopping at the
/// end of `data`. The run at `i` may overlap the run at `p`.
pub open spec fn spec_match_len(data: Seq<u8>, i: int, p: int) -> int
    decreases data.len() - i,
{
    if i < data.len() && data[p] == data[i] {
        1 + spec_match_len(data, i + 1, p + 1)
    } else {
        0
    }
}

/// The `mml`-byte key starting at `idx`.
pub open spec fn spec_window(data: Seq<u8>, idx: int, mml: int) -> Seq<u8> {
    data.subrange(idx, idx + mml)
}

/// A match index fit for the compressor at cursor `idx`: every recorded
/// position lies before the cursor, leaves room for a whole key, and carries
/// exactly the bytes of its key.
pub open spec fn match_index_ok(data: Seq<u8>, idx: int, map: Map<Seq<u8>, usize>, mml: int) -> bool {
    forall|k: Seq<u8>| #[trigger] map.dom().contains(k) ==> {
        &&& map[k] < idx
        &&& map[k] + mml <= data.len()
        &&& spec_window(data, map[k] as int, mml) == k
    }
}

/// The match the compressor emits at cursor `idx`, if any: only when more
/// than `min_match_len` and more than `end_literals` bytes remain is the key
/// at the cursor looked up, and only its most recent recorded position tried.
pub open spec fn spec_try_match(
    data: Seq<u8>,
    idx: int,
    map: Map<Seq<u8>, usize>,
    s: CompressionSettings,
) -> Option<Token> {
    let rem = data.len() - idx;
    if rem > s.min_match_len && rem > s.end_literals {
        let w = spec_window(data, idx, s.min_match_len as int);
        if map.dom().contains(w) {
            Some(
                Token::Match {
                    offset: (idx - map[w]) as usize,
                    length: spec_match_len(data, idx, map[w] as int) as usize,
                },
            )
        } else {
            None
        }
    } else {
        None
    }
}

/// The token the compressor emits at cursor `idx`: the match found, else the
/// literal byte under the cursor.
pub open spec fn spec_next_token(
    data: Seq<u8>,
    idx: int,
    map: Map<Seq<u8>, usize>,
    s: CompressionSettings,
) -> Token {
    match spec_try_match(data, idx, map, s) {
        Some(t) => t,
        None => Token::Literal(data[idx]),
    }
}

/// The match index after the key at `idx` is recorded, which happens whenever
/// more than `min_match_len` bytes remain at the cursor.
pub open spec fn spec_register(
    data: Seq<u8>,
    idx: int,
    map: Map<Seq<u8>, usize>,
    s: CompressionSettings,
) -> Map<Seq<u8>, usize> {
    if data.len() - idx > s.min_match_len {
        map.insert(spec_window(data, idx, s.min_match_len as int), idx as usize)
    } else {
        map
    }
}

/// The match index after one whole compression step at cursor `idx` emitting
/// a token of length `tlen`: the key at `idx` is recorded, then everything
/// more than `max_match_offset` behind the new cursor expires.
pub open spec fn spec_step_map(
    data: Seq<u8>,
    idx: int,
    map: Map<Seq<u8>, usize>,
    s: CompressionSettings,
    tlen: int,
) -> Map<Seq<u8>, usize> {
    crate::matchmap::cull_map(
        spec_register(data, idx, map, s),
        idx + tlen - s.max_match_offset,
    )
}

/// The token sequence the greedy single pass produces from cursor `idx` and
/// match index `map` to the end of `data`.
pub open spec fn spec_compress_from(
    data: Seq<u8>,
    idx: int,
    map: Map<Seq<u8>, usize>,
    s: CompressionSettings,
) -> Seq<Token>
    decreases data.len() - idx
        when 0 <= idx <= data.len() <= usize::MAX && s.min_match_len >= 1
            && match_index_ok(data, idx, map, s.min_match_len as int)
        via spec_compress_from_decreases
{
    if idx >= data.len() {
        Seq::empty()
    } else {
        let t = spec_next_token(data, idx, map, s);
        let tlen = spec_token_len(t);
        seq![t] + spec_compress_from(data, idx + tlen, spec_step_map(data, idx, map, s, tlen), s)
    }
}

/// Bounds on a run comparison: it is never negative and never reads past the
/// end of `data`, and every compared pair of bytes is equal.
pub proof fn lemma_match_len_props(data: Seq<u8>, i: int, p: int)
    requires
        0 <= i <= data.len(),
    ensures
        0 <= spec_match_len(data, i, p),
        i + spec_match_len(data, i, p) <= data.len(),
        forall|j: int| 0 <= j < spec_match_len(data, i, p) ==> data[p + j] == #[trigger] data[i + j],
    decreases data.len() - i,
{
    if i < data.len() && data[p] == data[i] {
        lemma_match_len_props(data, i + 1, p + 1);
        let l = spec_match_len(data, i, p);
        assert forall|j: int| 0 <= j < l implies data[p + j] == #[trigger] data[i + j] by {
            if j > 0 {
                assert(data[(p + 1) + (j - 1)] == data[(i + 1) + (j - 1)]);
            }
        }
    }
}

/// A key found in a fit match index matches the bytes at the cursor, so the
/// run comparison finds at least one equal byte.
proof fn lemma_found_match_positive(
    data: Seq<u8>,
    idx: int,
    map: Map<Seq<u8>, usize>,
    mml: int,
)
    requires
        0 <= idx,
        idx + mml <= data.len(),
        mml >= 1,
        match_index_ok(data, idx, map, mml),
        map.dom().contains(spec_window(data, idx, mml)),
    ensures
        spec_match_len(data, idx, map[spec_window(data, idx, mml)] as int) >= 1,
{
    let w = spec_window(data, idx, mml);
    let p = map[w] as int;
    assert(spec_window(data, p, mml) == w);
    assert(spec_window(data, p, mml)[0] == data[p]);
    assert(spec_window(data, idx, mml)[0] == data[idx]);
    assert(data[p] == data[idx]);
    lemma_match_len_props(data, idx + 1, p + 1);
    assert(spec_match_len(data, idx, p) == 1 + spec_match_len(data, idx + 1, p + 1));
}

/// One compression step keeps the match index fit for the new cursor.
proof fn lemma_step_preserves_index_ok(
    data: Seq<u8>,
    idx: int,
    map: Map<Seq<u8>, usize>,
    s: CompressionSettings,
    tlen: int,
)
    requires
        0 <= idx <= data.len() <= usize::MAX,
        s.min_match_len >= 1,
        tlen >= 1,
        match_index_ok(data, idx, map, s.min_match_len as int),
    ensures
        match_index_ok(
            data,
            idx + tlen,
            spec_step_map(data, idx, map, s, tlen),
            s.min_match_len as int,
        ),
{
    let mml = s.min_match_len as int;
    let m2 = spec_step_map(data, idx, map, s, tlen);
    assert forall|k: Seq<u8>| #[trigger] m2.dom().contains(k) implies {
        &&& m2[k] < idx + tlen
        &&& m2[k] + mml <= data.len()
        &&& spec_window(data, m2[k] as int, mml) == k
    } by {
        let m1 = spec_register(data, idx, map, s);
        assert(m1.dom().contains(k) && m2[k] == m1[k]);
        if data.len() - idx > s.min_match_len && k == spec_window(data, idx, mml) {
            assert(m1[k] == idx as usize);
        } else {
            assert(map.dom().contains(k) && m1[k] == map[k]);
        }
    }
}

#[via_fn]
proof fn spec_compress_from_decreases(
    data: Seq<u8>,
    idx: int,
    map: Map<Seq<u8>, usize>,
    s: CompressionSettings,
) {
    if idx < data.len() {
        let mml = s.min_match_len as int;
        let t = spec_next_token(data, idx, map, s);
        match spec_try_match(data, idx, map, s) {
            Some(_) => {
                let w = spec_window(data, idx, mml);
                lemma_found_match_positive(data, idx, map, mml);
                lemma_match_len_props(data, idx, map[w] as int);
                assert(1 <= spec_match_len(data, idx, map[w] as int) <= usize::MAX);
                assert(spec_token_len(t) == spec_match_len(data, idx, map[w] as int));
            },
            None => {},
        }
        let tlen = spec_token_len(t);
        lemma_step_preserves_index_ok(data, idx, map, s, tlen);
    }
}

/// The token sequence the whole greedy pass produces for `data`.
pub open spec fn spec_compress(data: Seq<u8>, s: CompressionSettings) -> Seq<Token> {
    spec_compress_from(data, 0, Map::empty(), s)
}

/// A single forward pass that turns an input buffer into tokens, consulting
/// and updating a sliding-window match index as it goes.
pub struct Compressor<'a> {
    data: &'a [u8],
    idx: usize,
    matches: MatchMap,
    settings: CompressionSettings,
}

impl<'a> Compressor<'a> {
    /// The input buffer.
    pub closed spec fn data_view(self) -> Seq<u8> {
        self.data@
    }

    /// The cursor: how much of the input the produced tokens cover.
    pub closed spec fn idx_spec(self) -> usize {
        self.idx
    }

    /// The compression settings in force.
    pub closed spec fn settings_spec(self) -> CompressionSettings {
        self.settings
    }

    /// The key-to-position mapping of the match index.
    pub closed spec fn map_spec(self) -> Map<Seq<u8>, usize> {
        self.matches.map_view()
    }

    /// Well-formed compressor state: the cursor is in bounds, the settings
    /// are valid, and every record of the match index lies before the cursor
    /// and carries exactly the key found at its position.
    pub closed spec fn wf(self) -> bool {
        &&& self.idx <= self.data@.len()
        &&& self.settings.min_match_len >= 1
        &&& self.matches.wf()
        &&& self.matches.max_offset_spec() == self.settings.max_match_offset
        &&& forall|i: int| 0 <= i < self.matches.queue_view().len() ==> {
            let e = #[trigger] self.matches.queue_view()[i];
            &&& e.1 < self.idx
            &&& e.1 + self.settings.min_match_len <= self.data@.len()
            &&& spec_window(self.data@, e.1 as int, self.settings.min_match_len as int) == e.0
        }
    }

    /// A well-formed compressor's match index is fit for its cursor.
    proof fn lemma_wf_index_ok(self)
        requires
            self.wf(),
        ensures
            match_index_ok(
                self.data_view(),
                self.idx_spec() as int,
                self.map_spec(),
                self.settings_spec().min_match_len as int,
            ),
    {
        let q = self.matches.queue_view();
        crate::matchmap::lemma_assoc_map_records(q);
        let mml = self.settings.min_match_len as int;
        assert forall|k: Seq<u8>| #[trigger] self.map_spec().dom().contains(k) implies {
            &&& self.map_spec()[k] < self.idx_spec() as int
            &&& self.map_spec()[k] + mml <= self.data_view().len()
            &&& spec_window(self.data_view(), self.map_spec()[k] as int, mml) == k
        } by {
            let i = choose|i: int| 0 <= i < q.len() && q[i] == (k, self.map_spec()[k]);
            assert(q[i].1 == self.map_spec()[k]);
        }
    }

    pub fn new(data: &'a [u8], settings: CompressionSettings) -> (r: Compressor<'a>)
        requires
            settings.min_match_len >= 1,
        ensures
            r.wf(),
            r.data_view() == data@,
            r.idx_spec() == 0,
            r.map_spec() == Map::<Seq<u8>, usize>::empty(),
            r.settings_spec() == settings,
    {
        let matches = MatchMap::new(settings.max_match_offset);
        Compressor { data, idx: 0, matches, settings }
    }

    /// Rewinds the cursor to the start of the input. The match index is
    /// deliberately left untouched, so a rewound pass would still see the
    /// records of the earlier pass; a populated index behind a rewound
    /// cursor is not a well-formed state, so `next` cannot be called after
    /// a mid-stream reset.
    pub fn reset(&mut self)
        ensures
            final(self).idx_spec() == 0,
            final(self).data_view() == old(self).data_view(),
            final(self).settings_spec() == old(self).settings_spec(),
            final(self).map_spec() == old(self).map_spec(),
    {
        self.idx = 0
    }

    /// The match token to emit at the cursor, if the index knows one.
    fn get_match(&self) -> (r: Option<Token>)
        requires
            self.wf(),
        ensures
            r == spec_try_match(
                self.data_view(),
                self.idx_spec() as int,
                self.map_spec(),
                self.settings_spec(),
            ),
    {
        let dist_from_end = self.data.len() - self.idx;
        if dist_from_end > self.settings.min_match_len && dist_from_end > self.settings.end_literals
        {
            let w = slice_subrange(self.data, self.idx, self.idx + self.settings.min_match_len);
            match self.matches.get_match(w) {
                Some(i) => {
                    proof {
                        self.lemma_wf_index_ok();
                        assert(self.map_spec()[w@] == i);
                    }
                    Some(Token::new_match(self.idx - i, self.determine_match_length(i)))
                },
                None => None,
            }
        } else {
            None
        }
    }

    /// How many bytes starting at the cursor repeat the bytes starting at
    /// `match_idx`; the runs may overlap.
    fn determine_match_length(&self, match_idx: usize) -> (r: usize)
        requires
            self.wf(),
            match_idx < self.idx_spec(),
        ensures
            r as int == spec_match_len(
                self.data_view(),
                self.idx_spec() as int,
                match_idx as int,
            ),
    {
        let n = self.data.len();
        let mut k: usize = 0;
        while self.idx + k < n && self.data[self.idx + k] == self.data[match_idx + k]
            invariant
                self.idx + k <= n,
                n == self.data@.len(),
                match_idx < self.idx <= n,
                spec_match_len(self.data@, self.idx as int, match_idx as int) == k
                    + spec_match_len(self.data@, self.idx + k, match_idx + k),
            decreases n - (self.idx + k),
        {
            k += 1;
        }
        proof {
            lemma_match_len_props(self.data@, self.idx + k, match_idx + k);
        }
        k
    }

    /// Moves the cursor forward by the emitted token's length and expires
    /// out-of-window index records.
    fn advance(&mut self, amt: usize)
        requires
            old(self).settings_spec().min_match_len >= 1,
            old(self).idx_spec() + amt <= old(self).data_view().len(),
            old(self).matches.wf(),
            old(self).matches.max_offset_spec() == old(self).settings_spec().max_match_offset,
            forall|i: int| 0 <= i < old(self).matches.queue_view().len() ==> {
                let e = #[trigger] old(self).matches.queue_view()[i];
                &&& e.1 < old(self).idx_spec() + amt
                &&& e.1 + old(self).settings_spec().min_match_len <= old(self).data_view().len()
                &&& spec_window(
                    old(self).data_view(),
                    e.1 as int,
                    old(self).settings_spec().min_match_len as int,
                ) == e.0
            },
        ensures
            final(self).wf(),
            final(self).data_view() == old(self).data_view(),
            final(self).settings_spec() == old(self).settings_spec(),
            final(self).idx_spec() == old(self).idx_spec() + amt,
            final(self).map_spec() == crate::matchmap::cull_map(
                old(self).map_spec(),
                old(self).idx_spec() + amt - old(self).settings_spec().max_match_offset,
            ),
    {
        let cap = self.data.len();
        assert(self.idx + amt <= cap);
        self.idx = self.idx + amt;
        let ghost q0 = self.matches.queue_view();
        self.matches.advance(self.idx);
        proof {
            let q1 = self.matches.queue_view();
            crate::matchmap::lemma_cull_count_bounds(
                q0,
                self.idx - self.matches.max_offset_spec(),
            );
            let n = q0.len() - q1.len();
            assert forall|i: int| 0 <= i < q1.len() implies {
                let e = #[trigger] q1[i];
                &&& e.1 < self.idx
                &&& e.1 + self.settings.min_match_len <= self.data@.len()
                &&& spec_window(self.data@, e.1 as int, self.settings.min_match_len as int) == e.0
            } by {
                assert(q1[i] == q0[i + n]);
            }
        }
    }

    /// One compression step: emits the next token and moves past it, keeping
    /// the match index in sync with the new cursor. Yields `None` once the
    /// cursor has reached the end of the input.
    pub fn next(&mut self) -> (r: Option<Token>)
        requires
            old(self).wf(),
        ensures
            final(self).wf(),
            final(self).data_view() == old(self).data_view(),
            final(self).settings_spec() == old(self).settings_spec(),
            old(self).idx_spec() >= old(self).data_view().len() ==> {
                &&& r is None
                &&& final(self).idx_spec() == old(self).idx_spec()
                &&& final(self).map_spec() == old(self).map_spec()
            },
            old(self).idx_spec() < old(self).data_view().len() ==> {
                let t = spec_next_token(
                    old(self).data_view(),
                    old(self).idx_spec() as int,
                    old(self).map_spec(),
                    old(self).settings_spec(),
                );
                &&& r == Some(t)
                &&& final(self).idx_spec() == old(self).idx_spec() + spec_token_len(t)
                &&& final(self).idx_spec() > old(self).idx_spec()
                &&& final(self).map_spec() == spec_step_map(
                    old(self).data_view(),
                    old(self).idx_spec() as int,
                    old(self).map_spec(),
                    old(self).settings_spec(),
                    spec_token_len(t),
                )
            },
    {
        let out: Option<Token> = if self.idx >= self.data.len() {
            None
        } else {
            match self.get_match() {
                Some(m) => Some(m),
                None => Some(Token::Literal(self.data[self.idx])),
            }
        };
        proof {
            self.lemma_wf_index_ok();
            if out is Some && self.idx < self.data@.len() {
                match spec_try_match(self.data@, self.idx as int, self.map_spec(), self.settings) {
                    Some(_) => {
                        lemma_found_match_positive(
                            self.data@,
                            self.idx as int,
                            self.map_spec(),
                            self.settings.min_match_len as int,
                        );
                        let w = spec_window(
                            self.data@,
                            self.idx as int,
                            self.settings.min_match_len as int,
                        );
                        lemma_match_len_props(self.data@, self.idx as int, self.map_spec()[w] as int);
                    },
                    None => {},
                }
            }
        }
        let data = self.data;
        if self.data.len() - self.idx > self.settings.min_match_len {
            let w = slice_subrange(data, self.idx, self.idx + self.settings.min_match_len);
            self.matches.add_prefix(w, self.idx);
        }
        match out {
            Some(t) => {
                let l = t.token_len();
                self.advance(l);
                Some(t)
            },
            None => None,
        }
    }
}

/// Drives a compressor over `data` to exhaustion, collecting every token of
/// the greedy pass eagerly. Compression has no error path: it is total over
/// all finite inputs and all settings with `min_match_len >= 1`.
pub fn compress(data: &[u8], settings: CompressionSettings) -> (r: Vec<Token>)
    requires
        settings.min_match_len >= 1,
    ensures
        r@ == spec_compress(data@, settings),
{
    let ghost s = settings;
    let cap = data.len();
    let mut cmp = Compressor::new(data, settings);
    let mut out: Vec<Token> = Vec::new();
    loop
        invariant
            data@.len() == cap,
            cmp.wf(),
            cmp.data_view() == data@,
            cmp.settings_spec() == s,
            out@ + spec_compress_from(data@, cmp.idx_spec() as int, cmp.map_spec(), s)
                == spec_compress(data@, s),
        ensures
            out@ == spec_compress(data@, s),
        decreases data@.len() - cmp.idx_spec(),
    {
        let ghost pre = cmp;
        proof {
            pre.lemma_wf_index_ok();
        }
        match cmp.next() {
            Some(t) => {
                proof {
                    let rest = spec_compress_from(
                        data@,
                        cmp.idx_spec() as int,
                        cmp.map_spec(),
                        s,
                    );
                    assert(spec_compress_from(data@, pre.idx_spec() as int, pre.map_spec(), s)
                        == seq![t] + rest);
                    assert(out@.push(t) + rest =~= out@ + (seq![t] + rest));
                }
                out.push(t);
            },
            None => {
                proof {
                    assert(spec_compress_from(data@, pre.idx_spec() as int, pre.map_spec(), s)
                        =~= Seq::<Token>::empty());
                    assert(out@ + Seq::<Token>::empty() =~= out@);
                }
                break;
            },
        }
    }
    out
}

/// A match appends exactly `length` bytes.
proof fn lemma_match_bytes_len(out: Seq<u8>, offset: int, length: int)
    requires
        length >= 0,
    ensures
        spec_match_bytes(out, offset, length).len() == out.len() + length,
    decreases length,
{
    if length > 0 {
        lemma_match_bytes_len(out.push(out[out.len() - offset]), offset, length - 1);
    }
}

/// Replaying a match over a buffer that is a prefix of `data` extends the
/// prefix, as long as every copied byte agrees with the byte it will stand
/// for; the copy may feed on bytes it appended itself.
proof fn lemma_match_bytes_copy(data: Seq<u8>, m: int, offset: int, l: int)
    requires
        1 <= offset <= m,
        0 <= l,
        m + l <= data.len(),
        forall|j: int| 0 <= j < l ==> data[m - offset + j] == #[trigger] data[m + j],
    ensures
        spec_match_bytes(data.take(m), offset, l) == data.take(m + l),
    decreases l,
{
    if l <= 0 {
        assert(data.take(m) =~= data.take(m + l));
    } else {
        let out = data.take(m);
        assert(out[out.len() - offset] == data[m - offset]);
        assert(data[m - offset + 0] == data[m + 0]);
        assert(out.push(data[m]) =~= data.take(m + 1));
        assert forall|j: int| 0 <= j < l - 1 implies data[(m + 1) - offset + j]
            == #[trigger] data[(m + 1) + j] by {
            assert(data[m - offset + (j + 1)] == data[m + (j + 1)]);
        }
        lemma_match_bytes_copy(data, m + 1, offset, l - 1);
    }
}

/// From any cursor with a fit match index, the greedy pass produces tokens
/// that replay to exactly the whole input, and every match among them reaches
/// back at least one byte.
proof fn lemma_compress_from_decode(
    data: Seq<u8>,
    idx: int,
    map: Map<Seq<u8>, usize>,
    s: CompressionSettings,
    max: int,
)
    requires
        0 <= idx <= data.len() <= usize::MAX,
        s.min_match_len >= 1,
        match_index_ok(data, idx, map, s.min_match_len as int),
        data.len() <= max,
    ensures
        spec_decode(data.take(idx), spec_compress_from(data, idx, map, s), max) == Ok::<
            Seq<u8>,
            Error,
        >(data),
        forall|i: int| 0 <= i < spec_compress_from(data, idx, map, s).len() ==> token_wf(
            #[trigger] spec_compress_from(data, idx, map, s)[i],
        ),
    decreases data.len() - idx,
{
    let toks = spec_compress_from(data, idx, map, s);
    if idx >= data.len() {
        assert(data.take(idx) =~= data);
    } else {
        let t = spec_next_token(data, idx, map, s);
        let tlen = spec_token_len(t);
        let mml = s.min_match_len as int;
        match spec_try_match(data, idx, map, s) {
            Some(_) => {
                let w = spec_window(data, idx, mml);
                let p = map[w] as int;
                lemma_found_match_positive(data, idx, map, mml);
                lemma_match_len_props(data, idx, p);
                let l = spec_match_len(data, idx, p);
                assert(t == Token::Match { offset: (idx - p) as usize, length: l as usize });
                assert(tlen == l);
                lemma_match_bytes_copy(data, idx, idx - p, l);
                assert(spec_apply_token(data.take(idx), t, max) == Ok::<Seq<u8>, Error>(
                    data.take(idx + l),
                ));
            },
            None => {
                assert(data.take(idx).push(data[idx]) =~= data.take(idx + 1));
                assert(spec_apply_token(data.take(idx), t, max) == Ok::<Seq<u8>, Error>(
                    data.take(idx + 1),
                ));
            },
        }
        lemma_step_preserves_index_ok(data, idx, map, s, tlen);
        let map2 = spec_step_map(data, idx, map, s, tlen);
        lemma_compress_from_decode(data, idx + tlen, map2, s, max);
        let rest = spec_compress_from(data, idx + tlen, map2, s);
        assert(toks == seq![t] + rest);
        assert(toks[0] == t);
        assert(toks.drop_first() =~= rest);
        assert forall|i: int| 0 <= i < toks.len() implies token_wf(#[trigger] toks[i]) by {
            if i > 0 {
                assert(toks[i] == rest[i - 1]);
            }
        }
    }
}

/// Round trip: for every finite byte buffer and any settings with
/// `min_match_len >= 1`, replaying the tokens the greedy pass produces under
/// any ceiling that admits the buffer rebuilds it exactly, and every such
/// token is replayable.
pub proof fn lemma_round_trip(data: Seq<u8>, s: CompressionSettings, max: int)
    requires
        s.min_match_len >= 1,
        data.len() <= usize::MAX,
        data.len() <= max,
    ensures
        spec_decode(Seq::empty(), spec_compress(data, s), max) == Ok::<Seq<u8>, Error>(data),
        forall|i: int| 0 <= i < spec_compress(data, s).len() ==> token_wf(
            #[trigger] spec_compress(data, s)[i],
        ),
{
    assert(data.take(0) =~= Seq::<u8>::empty());
    lemma_compress_from_decode(data, 0, Map::empty(), s, max);
}

/// Splitting a replay: decoding a concatenation decodes the first part and,
/// if that succeeded, continues with the second part from its result; an
/// error in the first part is the error of the whole.
pub proof fn lemma_decode_append(out: Seq<u8>, t1: Seq<Token>, t2: Seq<Token>, max: int)
    ensures
        spec_decode(out, t1 + t2, max) == (match spec_decode(out, t1, max) {
            Ok(o) => spec_decode(o, t2, max),
            Err(e) => Err::<Seq<u8>, Error>(e),
        }),
    decreases t1.len(),
{
    if t1.len() == 0 {
        assert(t1 + t2 =~= t2);
    } else {
        assert((t1 + t2)[0] == t1[0]);
        assert((t1 + t2).drop_first() =~= t1.drop_first() + t2);
        match spec_apply_token(out, t1[0], max) {
            Ok(next) => {
                lemma_decode_append(next, t1.drop_first(), t2, max);
            },
            Err(_) => {},
        }
    }
}

/// Fail-fast on a bad offset: whatever the output rebuilt so far, the
/// match's length, and however the stream continues, a match reaching back
/// past the start of the output aborts the whole replay with InvalidOffset.
pub proof fn lemma_bad_offset_fails(
    out: Seq<u8>,
    offset: usize,
    length: usize,
    rest: Seq<Token>,
    max: int,
)
    requires
        offset > out.len(),
        out.len() <= usize::MAX,
    ensures
        spec_decode(out, seq![Token::Match { offset, length }] + rest, max) == Err::<
            Seq<u8>,
            Error,
        >(Error::InvalidOffset { idx: out.len() as usize, offset }),
{
    let t: Token = Token::Match { offset, length };
    assert((seq![t] + rest)[0] == t);
}

/// Exact boundary on size: a replay step whose match (if it is one) has a
/// valid offset fails with MaximumSizeExceeded exactly when the step would
/// push the output length past the ceiling — never a token early or late —
/// and otherwise succeeds with exactly that length.
pub proof fn lemma_size_boundary(out: Seq<u8>, t: Token, max: int)
    requires
        t matches Token::Match { offset, .. } ==> offset <= out.len(),
    ensures
        spec_apply_token(out, t, max) == Err::<Seq<u8>, Error>(Error::MaximumSizeExceeded)
            <==> out.len() + spec_token_len(t) > max,
        spec_apply_token(out, t, max) is Ok <==> out.len() + spec_token_len(t) <= max,
        spec_apply_token(out, t, max) matches Ok(o2) ==> o2.len() == out.len() + spec_token_len(t),
{
    match t {
        Token::Literal(_) => {},
        Token::Match { offset, length } => {
            lemma_match_bytes_len(out, offset as int, length as int);
        },
    }
}

/// Determinism: the replay result is a function of the token sequence and
/// the size ceiling alone; two replays of equal streams under equal ceilings
/// agree, whatever call history or external state surrounds them.
pub proof fn lemma_decode_deterministic(t1: Seq<Token>, t2: Seq<Token>, max1: int, max2: int)
    requires
        t1 == t2,
        max1 == max2,
    ensures
        spec_decode(Seq::empty(), t1, max1) == spec_decode(Seq::empty(), t2, max2),
{
}

} // verus!
