//! The PLY reader's logic: the ASCII header, the layout of the binary vertex
//! records, and which records are kept when a file is subsampled.
//!
//! Only INRIA 3DGS files are handled: `binary_little_endian`, one `vertex`
//! element whose `float` properties hold the Gaussian parameters. The caller
//! reads the file line by line and record by record and hands each to the
//! functions here.
use vstd::prelude::*;
use crate::text::{
    char_views, chars_eq, chars_of, contains, contains_exec, copy_chars, lemma_tokens_nonempty,
    lemma_trim_end_shape, parse_usize, parse_usize_exec, starts_with, starts_with_exec, tokens,
    tokens_of, trim_end, trimmed_len,
};

verus! {

/// Why a PLY file was refused.
#[derive(Debug, PartialEq, Eq)]
pub enum PlyError {
    /// The file ended inside the header.
    UnexpectedEof,
    /// The `format` line names another encoding (the trimmed line).
    NotLittleEndian(Vec<char>),
    /// The `element vertex` line has no readable count (the trimmed line).
    BadVertexCount(Vec<char>),
    /// A `property float` line has no name (the trimmed line).
    PropertyWithoutName(Vec<char>),
    /// No vertex element, or a vertex count of zero.
    NoVertices,
    /// A required vertex property is absent (its name).
    MissingProperty(Vec<char>),
}

// ---------------------------------------------------------------------------
// The header.

/// `end_header`
pub open spec fn kw_end_header() -> Seq<char> {
    seq!['e', 'n', 'd', '_', 'h', 'e', 'a', 'd', 'e', 'r']
}

/// `format`
pub open spec fn kw_format() -> Seq<char> {
    seq!['f', 'o', 'r', 'm', 'a', 't']
}

/// `binary_little_endian`
pub open spec fn kw_little_endian() -> Seq<char> {
    seq![
        'b', 'i', 'n', 'a', 'r', 'y', '_', 'l', 'i', 't', 't', 'l', 'e', '_', 'e', 'n', 'd', 'i',
        'a', 'n',
    ]
}

/// `element vertex`
pub open spec fn kw_element_vertex() -> Seq<char> {
    seq!['e', 'l', 'e', 'm', 'e', 'n', 't', ' ', 'v', 'e', 'r', 't', 'e', 'x']
}

/// `element`
pub open spec fn kw_element() -> Seq<char> {
    seq!['e', 'l', 'e', 'm', 'e', 'n', 't']
}

/// `property float`
pub open spec fn kw_property_float() -> Seq<char> {
    seq!['p', 'r', 'o', 'p', 'e', 'r', 't', 'y', ' ', 'f', 'l', 'o', 'a', 't']
}

/// What one trimmed header line `t` does to the header read so far
/// (vertex count `vc`, float property names `names`, inside the vertex
/// element or not): the state after it and the result. `Ok(true)` ends the
/// header; an error leaves the state unspecified.
pub open spec fn header_outcome(
    vc: usize,
    names: Seq<Seq<char>>,
    in_vertex: bool,
    t: Seq<char>,
    vc2: usize,
    names2: Seq<Seq<char>>,
    in_vertex2: bool,
    r: Result<bool, PlyError>,
) -> bool {
    let unchanged = vc2 == vc && names2 == names && in_vertex2 == in_vertex;
    if t == kw_end_header() {
        r == Ok::<bool, PlyError>(true) && unchanged
    } else if starts_with(t, kw_format()) {
        // Only binary_little_endian is handled.
        if contains(t, kw_little_endian()) {
            r == Ok::<bool, PlyError>(false) && unchanged
        } else {
            r matches Err(PlyError::NotLittleEndian(l)) && l@ == t
        }
    } else if starts_with(t, kw_element_vertex()) {
        match parse_usize(tokens(t).last()) {
            Some(n) => r == Ok::<bool, PlyError>(false) && vc2 == n && names2 == names && in_vertex2,
            None => r matches Err(PlyError::BadVertexCount(l)) && l@ == t,
        }
    } else if starts_with(t, kw_element()) {
        // Some other element (e.g. face): stop collecting properties.
        r == Ok::<bool, PlyError>(false) && vc2 == vc && names2 == names && !in_vertex2
    } else if in_vertex && starts_with(t, kw_property_float()) {
        if tokens(t).len() > 2 {
            r == Ok::<bool, PlyError>(false) && vc2 == vc && names2 == names.push(tokens(t)[2])
                && in_vertex2 == in_vertex
        } else {
            r matches Err(PlyError::PropertyWithoutName(l)) && l@ == t
        }
    } else {
        // Other property types, comments, obj_info and the like.
        r == Ok::<bool, PlyError>(false) && unchanged
    }
}

/// The header read so far.
pub struct PlyHeader {
    /// Count declared by `element vertex` (0 until then).
    pub vertex_count: usize,
    /// Names of the vertex element's `float` properties, in file order.
    pub prop_names: Vec<Vec<char>>,
    /// The lines being read belong to the vertex element.
    pub in_vertex: bool,
}

impl PlyHeader {
    /// Nothing read yet.
    pub fn new() -> (h: Self)
        ensures
            h.vertex_count == 0,
            h.prop_names@.len() == 0,
            !h.in_vertex,
    {
        PlyHeader { vertex_count: 0, prop_names: Vec::new(), in_vertex: false }
    }

    /// Takes the next header line as read, with its line ending; an empty
    /// line means the file ended. Returns `Ok(true)` at `end_header`.
    pub fn feed_line(&mut self, line: &str) -> (r: Result<bool, PlyError>)
        ensures
            line@.len() == 0 ==> r == Err::<bool, PlyError>(PlyError::UnexpectedEof),
            line@.len() > 0 ==> header_outcome(
                old(self).vertex_count,
                char_views(old(self).prop_names@),
                old(self).in_vertex,
                trim_end(line@),
                final(self).vertex_count,
                char_views(final(self).prop_names@),
                final(self).in_vertex,
                r,
            ),
    {
        let chars = chars_of(line);
        if chars.len() == 0 {
            return Err(PlyError::UnexpectedEof);
        }
        let n = trimmed_len(chars.as_slice());
        let t = &chars.as_slice()[0..n];
        let ghost tv = trim_end(line@);
        proof {
            assert(t@ =~= chars@.subrange(0, n as int));
            lemma_trim_end_shape(line@);
        }
        let end_header = ['e', 'n', 'd', '_', 'h', 'e', 'a', 'd', 'e', 'r'];
        let format = ['f', 'o', 'r', 'm', 'a', 't'];
        let little_endian = [
            'b', 'i', 'n', 'a', 'r', 'y', '_', 'l', 'i', 't', 't', 'l', 'e', '_', 'e', 'n', 'd', 'i',
            'a', 'n',
        ];
        let element_vertex = ['e', 'l', 'e', 'm', 'e', 'n', 't', ' ', 'v', 'e', 'r', 't', 'e', 'x'];
        let element = ['e', 'l', 'e', 'm', 'e', 'n', 't'];
        let property_float = ['p', 'r', 'o', 'p', 'e', 'r', 't', 'y', ' ', 'f', 'l', 'o', 'a', 't'];
        proof {
            assert(end_header@ =~= kw_end_header());
            assert(format@ =~= kw_format());
            assert(little_endian@ =~= kw_little_endian());
            assert(element_vertex@ =~= kw_element_vertex());
            assert(element@ =~= kw_element());
            assert(property_float@ =~= kw_property_float());
        }
        if chars_eq(t, &end_header) {
            return Ok(true);
        }
        if starts_with_exec(t, &format) {
            if !contains_exec(t, &little_endian) {
                return Err(PlyError::NotLittleEndian(copy_chars(t)));
            }
        } else if starts_with_exec(t, &element_vertex) {
            self.in_vertex = true;
            let toks = tokens_of(t);
            proof {
                assert(t@[0] == 'e');
                lemma_tokens_nonempty(t@);
            }
            let last = toks.len() - 1;
            match parse_usize_exec(toks[last].as_slice()) {
                Some(count) => {
                    self.vertex_count = count;
                },
                None => {
                    return Err(PlyError::BadVertexCount(copy_chars(t)));
                },
            }
        } else if starts_with_exec(t, &element) {
            self.in_vertex = false;
        } else if self.in_vertex && starts_with_exec(t, &property_float) {
            let mut toks = tokens_of(t);
            if toks.len() <= 2 {
                return Err(PlyError::PropertyWithoutName(copy_chars(t)));
            }
            let name = toks.remove(2);
            proof {
                assert(name@ == tokens(tv)[2]);
            }
            self.prop_names.push(name);
            proof {
                assert(char_views(self.prop_names@) =~= char_views(old(self).prop_names@).push(
                    tokens(tv)[2],
                ));
            }
        }
        Ok(false)
    }
}

// ---------------------------------------------------------------------------
// The vertex record layout.

/// Number of vertex properties the renderer reads.
pub const FIELD_COUNT: usize = 14;

/// Index of the position x among the required fields.
pub const FIELD_X: usize = 0;

/// Index of the position y among the required fields.
pub const FIELD_Y: usize = 1;

/// Index of the position z among the required fields.
pub const FIELD_Z: usize = 2;

/// Index of the SH band-0 red among the required fields.
pub const FIELD_DC_0: usize = 3;

/// Index of the SH band-0 green among the required fields.
pub const FIELD_DC_1: usize = 4;

/// Index of the SH band-0 blue among the required fields.
pub const FIELD_DC_2: usize = 5;

/// Index of the log scale x among the required fields.
pub const FIELD_SCALE_0: usize = 6;

/// Index of the log scale y among the required fields.
pub const FIELD_SCALE_1: usize = 7;

/// Index of the log scale z among the required fields.
pub const FIELD_SCALE_2: usize = 8;

/// Index of the rotation w (`rot_0`) among the required fields.
pub const FIELD_ROT_W: usize = 9;

/// Index of the rotation x (`rot_1`) among the required fields.
pub const FIELD_ROT_X: usize = 10;

/// Index of the rotation y (`rot_2`) among the required fields.
pub const FIELD_ROT_Y: usize = 11;

/// Index of the rotation z (`rot_3`) among the required fields.
pub const FIELD_ROT_Z: usize = 12;

/// Index of the opacity (a logit in INRIA files) among the required fields.
pub const FIELD_OPACITY: usize = 13;

/// Name of required field `k`.
pub open spec fn required_name(k: int) -> Seq<char> {
    if k == 0 {
        seq!['x']
    } else if k == 1 {
        seq!['y']
    } else if k == 2 {
        seq!['z']
    } else if k == 3 {
        seq!['f', '_', 'd', 'c', '_', '0']
    } else if k == 4 {
        seq!['f', '_', 'd', 'c', '_', '1']
    } else if k == 5 {
        seq!['f', '_', 'd', 'c', '_', '2']
    } else if k == 6 {
        seq!['s', 'c', 'a', 'l', 'e', '_', '0']
    } else if k == 7 {
        seq!['s', 'c', 'a', 'l', 'e', '_', '1']
    } else if k == 8 {
        seq!['s', 'c', 'a', 'l', 'e', '_', '2']
    } else if k == 9 {
        seq!['r', 'o', 't', '_', '0']
    } else if k == 10 {
        seq!['r', 'o', 't', '_', '1']
    } else if k == 11 {
        seq!['r', 'o', 't', '_', '2']
    } else if k == 12 {
        seq!['r', 'o', 't', '_', '3']
    } else {
        seq!['o', 'p', 'a', 'c', 'i', 't', 'y']
    }
}

fn required_name_exec(k: usize) -> (v: Vec<char>)
    requires
        k < FIELD_COUNT,
    ensures
        v@ == required_name(k as int),
{
    match k {
        0 => {
            let a = ['x'];
            proof {
                assert(a@ =~= seq!['x']);
            }
            copy_chars(&a)
        },
        1 => {
            let a = ['y'];
            proof {
                assert(a@ =~= seq!['y']);
            }
            copy_chars(&a)
        },
        2 => {
            let a = ['z'];
            proof {
                assert(a@ =~= seq!['z']);
            }
            copy_chars(&a)
        },
        3 => {
            let a = ['f', '_', 'd', 'c', '_', '0'];
            proof {
                assert(a@ =~= seq!['f', '_', 'd', 'c', '_', '0']);
            }
            copy_chars(&a)
        },
        4 => {
            let a = ['f', '_', 'd', 'c', '_', '1'];
            proof {
                assert(a@ =~= seq!['f', '_', 'd', 'c', '_', '1']);
            }
            copy_chars(&a)
        },
        5 => {
            let a = ['f', '_', 'd', 'c', '_', '2'];
            proof {
                assert(a@ =~= seq!['f', '_', 'd', 'c', '_', '2']);
            }
            copy_chars(&a)
        },
        6 => {
            let a = ['s', 'c', 'a', 'l', 'e', '_', '0'];
            proof {
                assert(a@ =~= seq!['s', 'c', 'a', 'l', 'e', '_', '0']);
            }
            copy_chars(&a)
        },
        7 => {
            let a = ['s', 'c', 'a', 'l', 'e', '_', '1'];
            proof {
                assert(a@ =~= seq!['s', 'c', 'a', 'l', 'e', '_', '1']);
            }
            copy_chars(&a)
        },
        8 => {
            let a = ['s', 'c', 'a', 'l', 'e', '_', '2'];
            proof {
                assert(a@ =~= seq!['s', 'c', 'a', 'l', 'e', '_', '2']);
            }
            copy_chars(&a)
        },
        9 => {
            let a = ['r', 'o', 't', '_', '0'];
            proof {
                assert(a@ =~= seq!['r', 'o', 't', '_', '0']);
            }
            copy_chars(&a)
        },
        10 => {
            let a = ['r', 'o', 't', '_', '1'];
            proof {
                assert(a@ =~= seq!['r', 'o', 't', '_', '1']);
            }
            copy_chars(&a)
        },
        11 => {
            let a = ['r', 'o', 't', '_', '2'];
            proof {
                assert(a@ =~= seq!['r', 'o', 't', '_', '2']);
            }
            copy_chars(&a)
        },
        12 => {
            let a = ['r', 'o', 't', '_', '3'];
            proof {
                assert(a@ =~= seq!['r', 'o', 't', '_', '3']);
            }
            copy_chars(&a)
        },
        _ => {
            let a = ['o', 'p', 'a', 'c', 'i', 't', 'y'];
            proof {
                assert(a@ =~= seq!['o', 'p', 'a', 'c', 'i', 't', 'y']);
            }
            copy_chars(&a)
        },
    }
}

/// Position of the last name equal to `key` (later properties of the same
/// name win), or -1 where none is.
pub open spec fn last_index_of(names: Seq<Seq<char>>, key: Seq<char>) -> int
    decreases names.len(),
{
    if names.len() == 0 {
        -1
    } else if names.last() == key {
        names.len() - 1
    } else {
        last_index_of(names.drop_last(), key)
    }
}

/// The first required field, from `k` on, that `names` lacks, or
/// `FIELD_COUNT` when none is missing.
pub open spec fn first_missing_from(names: Seq<Seq<char>>, k: int) -> int
    decreases FIELD_COUNT - k,
{
    if k >= FIELD_COUNT {
        FIELD_COUNT as int
    } else if last_index_of(names, required_name(k)) < 0 {
        k
    } else {
        first_missing_from(names, k + 1)
    }
}

proof fn lemma_last_index_range(names: Seq<Seq<char>>, key: Seq<char>)
    ensures
        -1 <= last_index_of(names, key) < names.len(),
        last_index_of(names, key) >= 0 ==> names[last_index_of(names, key)] == key,
    decreases names.len(),
{
    if names.len() > 0 && names.last() != key {
        lemma_last_index_range(names.drop_last(), key);
    }
}

fn last_index_exec(names: &Vec<Vec<char>>, key: &[char]) -> (r: Option<usize>)
    ensures
        match r {
            Some(i) => i as int == last_index_of(char_views(names@), key@),
            None => last_index_of(char_views(names@), key@) == -1,
        },
{
    let ghost all = char_views(names@);
    let mut found: Option<usize> = None;
    let mut i: usize = 0;
    proof {
        assert(all.subrange(0, 0) =~= Seq::<Seq<char>>::empty());
    }
    while i < names.len()
        invariant
            all == char_views(names@),
            i <= names@.len(),
            match found {
                Some(j) => j as int == last_index_of(all.subrange(0, i as int), key@),
                None => last_index_of(all.subrange(0, i as int), key@) == -1,
            },
        decreases names@.len() - i,
    {
        let ghost pre = all.subrange(0, i as int);
        let ghost cur = all.subrange(0, i + 1);
        proof {
            assert(cur.drop_last() =~= pre);
            assert(cur.last() == names@[i as int]@);
        }
        if chars_eq(names[i].as_slice(), key) {
            found = Some(i);
        }
        i += 1;
    }
    proof {
        assert(all.subrange(0, names@.len() as int) =~= all);
    }
    found
}

/// Where the fields the renderer reads sit in each vertex record.
#[derive(Debug)]
pub struct PlyLayout {
    /// Vertex count declared in the header.
    pub vertex_count: usize,
    /// Bytes per vertex record: four per float property.
    pub stride: usize,
    /// Byte offset of each required field, indexed by the `FIELD_*`
    /// constants.
    pub offsets: Vec<usize>,
}

impl PlyHeader {
    /// The record layout the header describes: every property is a 4-byte
    /// float, and each required field is found by name.
    pub fn layout(&self) -> (r: Result<PlyLayout, PlyError>)
        requires
            self.prop_names@.len() <= usize::MAX / 4,
        ensures
            self.vertex_count == 0 ==> r == Err::<PlyLayout, PlyError>(PlyError::NoVertices),
            self.vertex_count > 0 && first_missing_from(char_views(self.prop_names@), 0)
                < FIELD_COUNT ==> (r matches Err(PlyError::MissingProperty(n)) && n@
                == required_name(first_missing_from(char_views(self.prop_names@), 0))),
            self.vertex_count > 0 && first_missing_from(char_views(self.prop_names@), 0)
                == FIELD_COUNT ==> (r matches Ok(l) && l.vertex_count == self.vertex_count
                && l.stride == 4 * self.prop_names@.len() && l.offsets@.len() == FIELD_COUNT
                && forall|k: int|
                0 <= k < FIELD_COUNT ==> #[trigger] l.offsets@[k] == 4 * last_index_of(
                    char_views(self.prop_names@),
                    required_name(k),
                ) && l.offsets@[k] + 4 <= l.stride),
    {
        if self.vertex_count == 0 {
            return Err(PlyError::NoVertices);
        }
        let ghost names = char_views(self.prop_names@);
        let stride = self.prop_names.len() * 4;
        let mut offsets: Vec<usize> = Vec::new();
        let mut k: usize = 0;
        while k < FIELD_COUNT
            invariant
                names == char_views(self.prop_names@),
                self.vertex_count > 0,
                self.prop_names@.len() <= usize::MAX / 4,
                k <= FIELD_COUNT,
                offsets@.len() == k,
                first_missing_from(names, 0) == first_missing_from(names, k as int),
                forall|j: int|
                    0 <= j < k ==> #[trigger] offsets@[j] == 4 * last_index_of(
                        names,
                        required_name(j),
                    ) && offsets@[j] + 4 <= 4 * names.len(),
            decreases FIELD_COUNT - k,
        {
            let key = required_name_exec(k);
            match last_index_exec(&self.prop_names, key.as_slice()) {
                Some(i) => {
                    proof {
                        lemma_last_index_range(names, key@);
                    }
                    offsets.push(4 * i);
                },
                None => {
                    return Err(PlyError::MissingProperty(key));
                },
            }
            k += 1;
        }
        Ok(PlyLayout { vertex_count: self.vertex_count, stride, offsets })
    }
}

// ---------------------------------------------------------------------------
// Subsampling.

/// `(step, capacity)`: records at multiples of `step` are candidates, and
/// at most `capacity` are kept. A cap of 0 means "load all".
pub open spec fn subsample_plan(vertex_count: int, max_splats: int) -> (int, int) {
    if max_splats == 0 || vertex_count <= max_splats {
        (1, vertex_count)
    } else {
        (vertex_count / max_splats, max_splats)
    }
}

/// Uniform subsampling stride and the number of records that will be kept.
pub fn subsample(vertex_count: usize, max_splats: usize) -> (r: (usize, usize))
    ensures
        r.0 == subsample_plan(vertex_count as int, max_splats as int).0,
        r.1 == subsample_plan(vertex_count as int, max_splats as int).1,
        r.0 >= 1,
{
    if max_splats == 0 || vertex_count <= max_splats {
        (1, vertex_count)
    } else {
        proof {
            assert(vertex_count / max_splats >= 1) by (nonlinear_arith)
                requires
                    vertex_count > max_splats,
                    max_splats > 0,
            ;
        }
        (vertex_count / max_splats, max_splats)
    }
}

/// What to do with a vertex record once it has been read.
#[derive(Clone, Copy, Debug, PartialEq, Eq, Structural)]
pub enum RecordAction {
    /// Not on the subsampling stride.
    Skip,
    /// The cap is reached: stop reading.
    Stop,
    /// Decode and keep it.
    Keep,
}

/// The decision for record `i` when `kept` records are held already.
pub open spec fn record_action_spec(i: int, step: int, max_splats: int, kept: int) -> RecordAction {
    if i % step != 0 {
        RecordAction::Skip
    } else if max_splats > 0 && kept >= max_splats {
        RecordAction::Stop
    } else {
        RecordAction::Keep
    }
}

/// Decides what happens to record `i` after it was read.
pub fn record_action(i: usize, step: usize, max_splats: usize, kept: usize) -> (a: RecordAction)
    requires
        step > 0,
    ensures
        a == record_action_spec(i as int, step as int, max_splats as int, kept as int),
{
    if i % step != 0 {
        RecordAction::Skip
    } else if max_splats > 0 && kept >= max_splats {
        RecordAction::Stop
    } else {
        RecordAction::Keep
    }
}

/// Records kept, and whether reading stopped, after the decisions for
/// records `0..n`.
pub open spec fn kept_after(step: int, max_splats: int, n: nat) -> (int, bool)
    decreases n,
{
    if n == 0 {
        (0, false)
    } else {
        let (kept, stopped) = kept_after(step, max_splats, (n - 1) as nat);
        if stopped {
            (kept, true)
        } else {
            match record_action_spec(n - 1, step, max_splats, kept) {
                RecordAction::Skip => (kept, false),
                RecordAction::Stop => (kept, true),
                RecordAction::Keep => (kept + 1, false),
            }
        }
    }
}

/// Number of multiples of `step` below `n`.
pub open spec fn multiples_below(n: int, step: int) -> int {
    (n + step - 1) / step
}

proof fn lemma_multiples_step(n: int, step: int)
    requires
        n >= 0,
        step >= 1,
    ensures
        n % step != 0 ==> multiples_below(n + 1, step) == multiples_below(n, step),
        n % step == 0 ==> multiples_below(n + 1, step) == multiples_below(n, step) + 1,
        multiples_below(n, step) >= 0,
{
    let q = n / step;
    let r = n % step;
    vstd::arithmetic::div_mod::lemma_fundamental_div_mod(n, step);
    assert(n == q * step + r && 0 <= r < step) by (nonlinear_arith)
        requires
            n == step * (n / step) + n % step,
            q == n / step,
            r == n % step,
            step >= 1,
            n >= 0,
    {
        vstd::arithmetic::div_mod::lemma_mod_pos_bound(n, step);
    }
    assert((q + 1) * step == q * step + step) by (nonlinear_arith);
    if r == 0 {
        vstd::arithmetic::div_mod::lemma_fundamental_div_mod_converse(
            n + step - 1,
            step,
            q,
            step - 1,
        );
        vstd::arithmetic::div_mod::lemma_fundamental_div_mod_converse(n + step, step, q + 1, 0);
    } else {
        vstd::arithmetic::div_mod::lemma_fundamental_div_mod_converse(
            n + step - 1,
            step,
            q + 1,
            r - 1,
        );
        vstd::arithmetic::div_mod::lemma_fundamental_div_mod_converse(n + step, step, q + 1, r);
    }
}

proof fn lemma_kept_after(step: int, max_splats: int, n: nat)
    requires
        step >= 1,
        max_splats >= 0,
    ensures
        max_splats == 0 ==> kept_after(step, max_splats, n) == (multiples_below(n as int, step), false),
        max_splats > 0 ==> kept_after(step, max_splats, n).0 == (if multiples_below(n as int, step)
            < max_splats {
            multiples_below(n as int, step)
        } else {
            max_splats
        }),
        kept_after(step, max_splats, n).1 ==> kept_after(step, max_splats, n).0 == max_splats,
    decreases n,
{
    if n > 0 {
        lemma_kept_after(step, max_splats, (n - 1) as nat);
        lemma_multiples_step(n - 1, step);
    } else {
        assert(multiples_below(0, step) == 0) by {
            vstd::arithmetic::div_mod::lemma_fundamental_div_mod_converse(step - 1, step, 0, step - 1);
        }
    }
}

/// Subsampling keeps every record when there is no cap or the scene fits
/// under it, and exactly `max_splats` records otherwise: never more than
/// the cap, and the cap is always filled.
pub proof fn lemma_subsample_count(vertex_count: nat, max_splats: nat)
    ensures
        subsample_plan(vertex_count as int, max_splats as int).0 >= 1,
        kept_after(
            subsample_plan(vertex_count as int, max_splats as int).0,
            max_splats as int,
            vertex_count,
        ).0 == subsample_plan(vertex_count as int, max_splats as int).1,
        subsample_plan(vertex_count as int, max_splats as int).1 == (if max_splats == 0
            || vertex_count <= max_splats {
            vertex_count
        } else {
            max_splats
        }),
{
    let (step, cap) = subsample_plan(vertex_count as int, max_splats as int);
    if max_splats == 0 || vertex_count <= max_splats {
        lemma_kept_after(1, max_splats as int, vertex_count);
        assert(multiples_below(vertex_count as int, 1) == vertex_count);
    } else {
        assert(step >= 1 && step * max_splats <= vertex_count) by (nonlinear_arith)
            requires
                step == vertex_count / max_splats,
                vertex_count > max_splats,
                max_splats > 0,
        ;
        assert(multiples_below(vertex_count as int, step) >= max_splats) by (nonlinear_arith)
            requires
                step >= 1,
                step * max_splats <= vertex_count,
                multiples_below(vertex_count as int, step) == (vertex_count + step - 1) / step,
        ;
        lemma_kept_after(step, max_splats as int, vertex_count);
    }
}

// ---------------------------------------------------------------------------
// Record fields.

/// The little-endian 32-bit word at `off` in `b`.
pub open spec fn le_u32(b: Seq<u8>, off: int) -> u32 {
    (b[off] as int + 256 * b[off + 1] + 65536 * b[off + 2] + 16777216 * b[off + 3]) as u32
}

/// Bits of the float32 field at byte offset `off` of a vertex record
/// (`u32::from_le_bytes` of its four bytes).
pub fn field_bits(record: &[u8], off: usize) -> (v: u32)
    requires
        off + 4 <= record@.len(),
    ensures
        v == le_u32(record@, off as int),
{
    let b0 = record[off] as u32;
    let b1 = record[off + 1] as u32;
    let b2 = record[off + 2] as u32;
    let b3 = record[off + 3] as u32;
    b0 + 256 * b1 + 65536 * b2 + 16777216 * b3
}

} // verus!
