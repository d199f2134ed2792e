//! Reader for the text form of triangle meshes: a subset of Wavefront OBJ.
//!
//! A file is a sequence of lines separated by `\n`. A line whose first byte
//! is `v` is a vertex record `v <x> <y> <z>`; one whose first byte is `f` is a
//! triangle record `f <i> <j> <k>`, whose indices count from 1 and refer to
//! the vertex records that come before it. Every other line (comments that
//! start with `#`, empty lines, other record kinds) is skipped. The numbers of
//! a vertex record are kept as text: reading them is left to the caller.
use vstd::prelude::*;
use vstd::slice::slice_subrange;
use vstd::slice::slice_to_vec;

verus! {

/// ASCII white space: space, tab, line feed, vertical tab, form feed, carriage return.
pub open spec fn is_space(b: u8) -> bool {
    b == 32 || (9 <= b && b <= 13)
}

/// An ASCII decimal digit.
pub open spec fn is_digit(b: u8) -> bool {
    48 <= b && b <= 57
}

/// The leading run of `s` that holds no white space.
pub open spec fn word(s: Seq<u8>) -> Seq<u8>
    decreases s.len(),
{
    if s.len() == 0 || is_space(s[0]) {
        Seq::empty()
    } else {
        seq![s[0]] + word(s.drop_first())
    }
}

/// The leading run of `s` that holds no line feed.
pub open spec fn first_line(s: Seq<u8>) -> Seq<u8>
    decreases s.len(),
{
    if s.len() == 0 || s[0] == 10 {
        Seq::empty()
    } else {
        seq![s[0]] + first_line(s.drop_first())
    }
}

/// A word is no longer than the text it starts, and not empty where that text opens with a non-space byte.
pub proof fn lemma_word_len(s: Seq<u8>)
    ensures
        word(s).len() <= s.len(),
        s.len() > 0 && !is_space(s[0]) ==> word(s).len() > 0,
    decreases s.len(),
{
    if s.len() > 0 && !is_space(s[0]) {
        lemma_word_len(s.drop_first());
    }
}

/// A first line is no longer than the text, holds no line feed, and stops at one if it stops early.
pub proof fn lemma_first_line_len(s: Seq<u8>)
    ensures
        first_line(s).len() <= s.len(),
        first_line(s).len() < s.len() ==> s[first_line(s).len() as int] == 10,
        forall|i: int| 0 <= i < first_line(s).len() ==> s[i] != 10,
    decreases s.len(),
{
    if s.len() > 0 && s[0] != 10 {
        lemma_first_line_len(s.drop_first());
        let t = s.drop_first();
        assert forall|i: int| 0 <= i < first_line(s).len() implies s[i] != 10 by {
            if i > 0 {
                assert(s[i] == t[i - 1]);
            }
        }
    }
}

/// The fields of a line: its maximal runs of bytes that are not white space, in order.
pub open spec fn fields(s: Seq<u8>) -> Seq<Seq<u8>>
    decreases s.len(),
{
    if s.len() == 0 {
        Seq::empty()
    } else if is_space(s[0]) {
        fields(s.drop_first())
    } else {
        proof {
            lemma_word_len(s);
        }
        seq![word(s)] + fields(s.skip(word(s).len() as int))
    }
}

/// The lines of a text: the runs between line feeds. A final line feed ends
/// the last line and opens no new one.
pub open spec fn lines(s: Seq<u8>) -> Seq<Seq<u8>>
    decreases s.len(),
{
    if s.len() == 0 {
        Seq::empty()
    } else {
        proof {
            lemma_first_line_len(s);
        }
        let l = first_line(s);
        if l.len() == s.len() {
            seq![l]
        } else {
            seq![l] + lines(s.skip(l.len() + 1 as int))
        }
    }
}

/// The bytes of `s` between the bounds of each span.
pub open spec fn span_texts(s: Seq<u8>, spans: Seq<(usize, usize)>) -> Seq<Seq<u8>> {
    spans.map_values(|p: (usize, usize)| s.subrange(p.0 as int, p.1 as int))
}

/// The end of the run of non-space bytes of `s` that starts at `start`.
fn word_end(s: &[u8], start: usize, hi: usize) -> (e: usize)
    requires
        start <= hi <= s@.len(),
    ensures
        start <= e <= hi,
        forall|j: int| start <= j < e ==> !is_space(#[trigger] s@[j]),
        word(s@.subrange(start as int, hi as int)) == s@.subrange(start as int, e as int),
        e < hi ==> is_space(s@[e as int]),
        start < hi && !is_space(s@[start as int]) ==> start < e,
{
    let mut i: usize = start;
    while i < hi && !(s[i] == 32 || (9 <= s[i] && s[i] <= 13))
        invariant
            start <= i <= hi <= s@.len(),
            word(s@.subrange(start as int, hi as int)) == s@.subrange(start as int, i as int)
                + word(s@.subrange(i as int, hi as int)),
            forall|j: int| start <= j < i ==> !is_space(#[trigger] s@[j]),
        decreases hi - i,
    {
        assert(s@.subrange(i as int, hi as int).drop_first() =~= s@.subrange(
            i + 1,
            hi as int,
        ));
        assert(s@.subrange(start as int, i as int) + seq![s@[i as int]] =~= s@.subrange(
            start as int,
            i + 1,
        ));
        i = i + 1;
    }
    assert(s@.subrange(start as int, i as int) + Seq::empty() =~= s@.subrange(
        start as int,
        i as int,
    ));
    i
}

/// The span `p` of `s` is a whole run of bytes of `s[lo..hi]` that are not white space.
pub open spec fn spans_run(s: Seq<u8>, lo: usize, hi: usize, p: (usize, usize)) -> bool {
    &&& lo <= p.0 < p.1 <= hi
    &&& p.0 == lo || is_space(s[p.0 - 1])
    &&& p.1 == hi || is_space(s[p.1 as int])
    &&& forall|j: int| p.0 <= j < p.1 ==> !is_space(#[trigger] s[j])
}

/// The spans of the fields of the bytes `s[lo..hi]`, in order: each is a
/// whole run of bytes that are not white space, and there is one per field.
pub fn field_spans(s: &[u8], lo: usize, hi: usize) -> (r: Vec<(usize, usize)>)
    requires
        lo <= hi <= s@.len(),
    ensures
        span_texts(s@, r@) == fields(s@.subrange(lo as int, hi as int)),
        forall|k: int| 0 <= k < r@.len() ==> spans_run(s@, lo, hi, #[trigger] r@[k]),
        forall|k: int| 0 < k < r@.len() ==> r@[k - 1].1 < #[trigger] r@[k].0,
{
    let mut r: Vec<(usize, usize)> = Vec::new();
    let mut i: usize = lo;
    while i < hi
        invariant
            lo <= i <= hi <= s@.len(),
            fields(s@.subrange(lo as int, hi as int)) == span_texts(s@, r@) + fields(
                s@.subrange(i as int, hi as int),
            ),
            forall|k: int| 0 <= k < r@.len() ==> spans_run(s@, lo, hi, #[trigger] r@[k]),
            forall|k: int| 0 < k < r@.len() ==> r@[k - 1].1 < #[trigger] r@[k].0,
            r@.len() > 0 ==> r@.last().1 <= i,
            i > lo ==> is_space(s@[i - 1]) || i == hi || is_space(s@[i as int]),
        decreases hi - i,
    {
        let ghost rest = s@.subrange(i as int, hi as int);
        if s[i] == 32 || (9 <= s[i] && s[i] <= 13) {
            assert(rest.drop_first() =~= s@.subrange(i + 1, hi as int));
            i = i + 1;
        } else {
            let e = word_end(s, i, hi);
            proof {
                lemma_word_len(rest);
                assert(rest.skip(word(rest).len() as int) =~= s@.subrange(e as int, hi as int));
            }
            let ghost old_r = r@;
            r.push((i, e));
            assert(span_texts(s@, r@) =~= span_texts(s@, old_r) + seq![word(rest)]);
            i = e;
        }
    }
    assert(s@.subrange(i as int, hi as int) =~= Seq::<u8>::empty());
    assert(span_texts(s@, r@) + Seq::<Seq<u8>>::empty() =~= span_texts(s@, r@));
    r
}

/// The value of a run of decimal digits.
pub open spec fn decimal_value(d: Seq<u8>) -> nat
    decreases d.len(),
{
    if d.len() == 0 {
        0
    } else {
        decimal_value(d.drop_last()) * 10 + (d.last() - 48) as nat
    }
}

/// Every byte of `d` is a decimal digit.
pub open spec fn all_digits(d: Seq<u8>) -> bool {
    forall|i: int| 0 <= i < d.len() ==> is_digit(#[trigger] d[i])
}

/// The digits of an index field: the field without one leading `+`, if it has one.
pub open spec fn index_digits(t: Seq<u8>) -> Seq<u8> {
    if t.len() > 0 && t[0] == 43 {
        t.drop_first()
    } else {
        t
    }
}

/// The 0-based vertex that a face field names, when `n` vertices are known:
/// the field is a decimal number, with at most one leading `+`, from 1 to `n`.
pub open spec fn face_index(t: Seq<u8>, n: nat) -> Option<nat> {
    let d = index_digits(t);
    if d.len() > 0 && all_digits(d) && 1 <= decimal_value(d) <= n {
        Some((decimal_value(d) - 1) as nat)
    } else {
        None
    }
}

/// A prefix of a digit run is worth no more than the whole run.
proof fn lemma_decimal_prefix(d: Seq<u8>, j: int)
    requires
        0 <= j <= d.len(),
        all_digits(d),
    ensures
        decimal_value(d.subrange(0, j)) <= decimal_value(d),
    decreases d.len(),
{
    if j < d.len() {
        let e = d.drop_last();
        assert(all_digits(e)) by {
            assert forall|i: int| 0 <= i < e.len() implies is_digit(#[trigger] e[i]) by {
                assert(e[i] == d[i]);
            }
        }
        lemma_decimal_prefix(e, j);
        assert(e.subrange(0, j) =~= d.subrange(0, j));
        assert(decimal_value(e) <= decimal_value(d)) by (nonlinear_arith)
            requires
                decimal_value(d) == decimal_value(e) * 10 + (d.last() - 48) as nat,
        ;
    } else {
        assert(d.subrange(0, j) =~= d);
    }
}

/// Reads the face field `s[a..b]` against `n` known vertices.
pub fn parse_face_index(s: &[u8], a: usize, b: usize, n: usize) -> (r: Option<usize>)
    requires
        a <= b <= s@.len(),
    ensures
        match r {
            Some(k) => face_index(s@.subrange(a as int, b as int), n as nat) == Some(k as nat),
            None => face_index(s@.subrange(a as int, b as int), n as nat) is None,
        },
{
    let ghost t = s@.subrange(a as int, b as int);
    let mut start: usize = a;
    if a < b && s[a] == 43 {
        start = a + 1;
    }
    let ghost d = s@.subrange(start as int, b as int);
    assert(index_digits(t) =~= d);
    if start == b {
        return None;
    }
    let mut val: usize = 0;
    let mut i: usize = start;
    while i < b
        invariant
            start <= i <= b <= s@.len(),
            d == s@.subrange(start as int, b as int),
            index_digits(s@.subrange(a as int, b as int)) == d,
            d.len() > 0,
            d.subrange(0, i - start) =~= s@.subrange(start as int, i as int),
            all_digits(s@.subrange(start as int, i as int)),
            val as nat == decimal_value(s@.subrange(start as int, i as int)),
            val <= n,
        decreases b - i,
    {
        let c = s[i];
        if c < 48 || c > 57 {
            assert(d[i - start] == s@[i as int]);
            assert(!is_digit(d[i - start]));
            return None;
        }
        let dig: usize = (c - 48) as usize;
        let ghost p = s@.subrange(start as int, i + 1);
        assert(p.drop_last() =~= s@.subrange(start as int, i as int));
        assert(all_digits(p)) by {
            assert forall|j: int| 0 <= j < p.len() implies is_digit(#[trigger] p[j]) by {
                if j < p.len() - 1 {
                    assert(p[j] == s@.subrange(start as int, i as int)[j]);
                }
            }
        }
        let fits = if val > n / 10 {
            false
        } else {
            assert(val * 10 <= n) by (nonlinear_arith)
                requires
                    val <= n / 10,
            ;
            dig <= n - val * 10
        };
        if !fits {
            proof {
                assert(decimal_value(p) > n) by (nonlinear_arith)
                    requires
                        decimal_value(p) == val * 10 + dig,
                        val > n / 10 || val * 10 + dig > n,
                ;
                if all_digits(d) {
                    lemma_decimal_prefix(d, i + 1 - start);
                    assert(d.subrange(0, i + 1 - start) =~= p);
                }
            }
            return None;
        }
        val = val * 10 + dig;
        i = i + 1;
    }
    assert(d =~= s@.subrange(start as int, i as int));
    if val == 0 {
        None
    } else {
        Some(val - 1)
    }
}

/// The three coordinate fields of a vertex record, kept as text.
#[derive(Clone, Debug)]
pub struct VertexText {
    pub x: Vec<u8>,
    pub y: Vec<u8>,
    pub z: Vec<u8>,
}

impl View for VertexText {
    type V = (Seq<u8>, Seq<u8>, Seq<u8>);

    open spec fn view(&self) -> (Seq<u8>, Seq<u8>, Seq<u8>) {
        (self.x@, self.y@, self.z@)
    }
}

/// A triangle record: three 0-based positions in the vertex list.
#[derive(Clone, Copy, Debug, PartialEq, Eq, Structural)]
pub struct Face {
    pub a: usize,
    pub b: usize,
    pub c: usize,
}

impl View for Face {
    type V = (nat, nat, nat);

    open spec fn view(&self) -> (nat, nat, nat) {
        (self.a as nat, self.b as nat, self.c as nat)
    }
}

/// What a mesh file holds: its vertex records and its triangle records, each in file order.
pub struct ObjModel {
    pub vertices: Seq<(Seq<u8>, Seq<u8>, Seq<u8>)>,
    pub faces: Seq<(nat, nat, nat)>,
}

/// The records read from a mesh file.
#[derive(Clone, Debug)]
pub struct ObjData {
    pub vertices: Vec<VertexText>,
    pub faces: Vec<Face>,
}

impl View for ObjData {
    type V = ObjModel;

    open spec fn view(&self) -> ObjModel {
        ObjModel {
            vertices: self.vertices@.map_values(|v: VertexText| v@),
            faces: self.faces@.map_values(|f: Face| f@),
        }
    }
}

/// Why a mesh could not be loaded.
#[derive(Clone, Copy, Debug, PartialEq, Eq, Structural)]
pub enum ObjError {
    /// The file could not be opened or read.
    FileError,
    /// A vertex or triangle record is malformed, or names a vertex that does not precede it.
    ParseError,
}

/// No records at all: what a text with no vertex or triangle lines holds.
pub open spec fn empty_model() -> ObjModel {
    ObjModel { vertices: Seq::empty(), faces: Seq::empty() }
}

/// Byte `v`, which opens a vertex record.
pub open spec fn vertex_tag() -> u8 {
    118
}

/// Byte `f`, which opens a triangle record.
pub open spec fn face_tag() -> u8 {
    102
}

/// The effect of one line on the records read so far; `None` where the line is malformed.
pub open spec fn read_line(m: ObjModel, line: Seq<u8>) -> Option<ObjModel> {
    let f = fields(line);
    let n = m.vertices.len();
    if line.len() > 0 && line[0] == vertex_tag() {
        if f.len() == 4 {
            Some(ObjModel { vertices: m.vertices.push((f[1], f[2], f[3])), faces: m.faces })
        } else {
            None
        }
    } else if line.len() > 0 && line[0] == face_tag() {
        if f.len() == 4 && face_index(f[1], n) is Some && face_index(f[2], n) is Some
            && face_index(f[3], n) is Some {
            Some(
                ObjModel {
                    vertices: m.vertices,
                    faces: m.faces.push(
                        (
                            face_index(f[1], n)->Some_0,
                            face_index(f[2], n)->Some_0,
                            face_index(f[3], n)->Some_0,
                        ),
                    ),
                },
            )
        } else {
            None
        }
    } else {
        Some(m)
    }
}

/// The records of a sequence of lines, read in order; `None` where any line is malformed.
pub open spec fn read_lines(ls: Seq<Seq<u8>>) -> Option<ObjModel>
    decreases ls.len(),
{
    if ls.len() == 0 {
        Some(empty_model())
    } else {
        match read_lines(ls.drop_last()) {
            Some(m) => read_line(m, ls.last()),
            None => None,
        }
    }
}

/// The records of a mesh file's text; `None` where any line is malformed.
pub open spec fn read_text(s: Seq<u8>) -> Option<ObjModel> {
    read_lines(lines(s))
}

/// Every triangle names vertices of the model.
pub open spec fn faces_resolve(m: ObjModel) -> bool {
    forall|k: int|
        0 <= k < m.faces.len() ==> {
            let f = #[trigger] m.faces[k];
            &&& f.0 < m.vertices.len()
            &&& f.1 < m.vertices.len()
            &&& f.2 < m.vertices.len()
        }
}

/// Once a line is malformed, no later lines make the text readable.
pub proof fn lemma_read_lines_fail(a: Seq<Seq<u8>>, b: Seq<Seq<u8>>)
    requires
        read_lines(a) is None,
    ensures
        read_lines(a + b) is None,
    decreases b.len(),
{
    if b.len() > 0 {
        lemma_read_lines_fail(a, b.drop_last());
        assert((a + b).drop_last() =~= a + b.drop_last());
    } else {
        assert(a + b =~= a);
    }
}

/// Every triangle read from a file names a vertex record that precedes it,
/// so each of its positions lies within the vertex list.
pub proof fn lemma_faces_resolve(ls: Seq<Seq<u8>>)
    requires
        read_lines(ls) is Some,
    ensures
        faces_resolve(read_lines(ls)->Some_0),
    decreases ls.len(),
{
    if ls.len() > 0 {
        lemma_faces_resolve(ls.drop_last());
        let m = read_lines(ls.drop_last())->Some_0;
        let m2 = read_lines(ls)->Some_0;
        assert forall|k: int| 0 <= k < m2.faces.len() implies {
            let f = #[trigger] m2.faces[k];
            &&& f.0 < m2.vertices.len()
            &&& f.1 < m2.vertices.len()
            &&& f.2 < m2.vertices.len()
        } by {
            if k < m.faces.len() {
                assert(m2.faces[k] == m.faces[k]);
            }
        }
    }
}

/// The end of the line that starts at `p`: the next line feed, or the end of the text.
fn line_end(s: &[u8], p: usize) -> (e: usize)
    requires
        p <= s@.len(),
    ensures
        p <= e <= s@.len(),
        first_line(s@.subrange(p as int, s@.len() as int)) == s@.subrange(p as int, e as int),
{
    let mut i: usize = p;
    let ghost hi = s@.len() as int;
    while i < s.len() && s[i] != 10
        invariant
            p <= i <= s@.len(),
            hi == s@.len(),
            first_line(s@.subrange(p as int, hi)) == s@.subrange(p as int, i as int)
                + first_line(s@.subrange(i as int, hi)),
        decreases s@.len() - i,
    {
        assert(s@.subrange(i as int, hi).drop_first() =~= s@.subrange(i + 1, hi));
        assert(s@.subrange(p as int, i as int) + seq![s@[i as int]] =~= s@.subrange(
            p as int,
            i + 1,
        ));
        i = i + 1;
    }
    assert(s@.subrange(p as int, i as int) + Seq::empty() =~= s@.subrange(p as int, i as int));
    i
}

/// Applies the line `s[lo..hi]` to the records read so far; `false` where it is malformed.
fn read_line_into(s: &[u8], lo: usize, hi: usize, data: &mut ObjData) -> (ok: bool)
    requires
        lo <= hi <= s@.len(),
    ensures
        ok ==> read_line(old(data)@, s@.subrange(lo as int, hi as int)) == Some(final(data)@),
        !ok ==> read_line(old(data)@, s@.subrange(lo as int, hi as int)) is None,
{
    let ghost line = s@.subrange(lo as int, hi as int);
    if lo == hi || (s[lo] != 118 && s[lo] != 102) {
        return true;
    }
    assert(line[0] == s@[lo as int]);
    let spans = field_spans(s, lo, hi);
    if spans.len() != 4 {
        return false;
    }
    let ghost f = fields(line);
    assert forall|k: int| 0 <= k < 4 implies f[k] == s@.subrange(
        spans@[k].0 as int,
        spans@[k].1 as int,
    ) by {
        assert(f[k] == span_texts(s@, spans@)[k]);
    }
    let (a1, b1) = spans[1];
    let (a2, b2) = spans[2];
    let (a3, b3) = spans[3];
    if s[lo] == 118 {
        let v = VertexText {
            x: slice_to_vec(slice_subrange(s, a1, b1)),
            y: slice_to_vec(slice_subrange(s, a2, b2)),
            z: slice_to_vec(slice_subrange(s, a3, b3)),
        };
        let ghost before = data@;
        data.vertices.push(v);
        assert(data@.vertices =~= before.vertices.push((f[1], f[2], f[3])));
        assert(data@.faces =~= before.faces);
        true
    } else {
        let n = data.vertices.len();
        let i1 = parse_face_index(s, a1, b1, n);
        let i2 = parse_face_index(s, a2, b2, n);
        let i3 = parse_face_index(s, a3, b3, n);
        match (i1, i2, i3) {
            (Some(a), Some(b), Some(c)) => {
                let ghost before = data@;
                data.faces.push(Face { a, b, c });
                assert(data@.faces =~= before.faces.push((a as nat, b as nat, c as nat)));
                assert(data@.vertices =~= before.vertices);
                true
            },
            _ => false,
        }
    }
}

/// Reads the records of a mesh file's text.
///
/// Succeeds exactly when every vertex line holds three fields after its tag
/// and every triangle line holds three indices after its tag, each naming a
/// vertex record that comes before it; the records then come back in file
/// order, with indices counted from 0. Otherwise the error is `ParseError`.
pub fn parse_obj(text: &[u8]) -> (r: Result<ObjData, ObjError>)
    ensures
        match r {
            Ok(d) => {
                &&& read_text(text@) == Some(d@)
                &&& faces_resolve(d@)
                &&& faces_within(d.faces@, d.vertices@.len())
            },
            Err(e) => read_text(text@) is None && e == ObjError::ParseError,
        },
{
    let mut data = ObjData { vertices: Vec::new(), faces: Vec::new() };
    let ghost len = text@.len() as int;
    let ghost mut done: Seq<Seq<u8>> = Seq::empty();
    assert(data@.vertices =~= empty_model().vertices);
    assert(data@.faces =~= empty_model().faces);
    assert(text@.subrange(0, len) =~= text@);
    let mut p: usize = 0;
    while p < text.len()
        invariant
            p <= text@.len(),
            len == text@.len(),
            lines(text@) == done + lines(text@.subrange(p as int, len)),
            read_lines(done) == Some(data@),
        decreases text@.len() - p,
    {
        let e = line_end(text, p);
        let ghost rest = text@.subrange(p as int, len);
        let ghost line = text@.subrange(p as int, e as int);
        let ghost after: Seq<Seq<u8>> = if e as int == len {
            Seq::empty()
        } else {
            lines(text@.subrange(e + 1, len))
        };
        proof {
            lemma_first_line_len(rest);
            if e as int != len {
                assert(rest.skip(line.len() + 1 as int) =~= text@.subrange(e + 1, len));
            }
            assert(lines(rest) =~= seq![line] + after);
            assert(done.push(line).drop_last() =~= done);
            assert(done + lines(rest) =~= done.push(line) + after);
        }
        let ok = read_line_into(text, p, e, &mut data);
        if !ok {
            proof {
                lemma_read_lines_fail(done.push(line), after);
            }
            return Err(ObjError::ParseError);
        }
        proof {
            done = done.push(line);
        }
        if e == text.len() {
            p = e;
            assert(after =~= lines(text@.subrange(p as int, len)));
        } else {
            p = e + 1;
        }
    }
    assert(done + lines(text@.subrange(p as int, len)) =~= done);
    proof {
        lemma_faces_resolve(done);
        assert forall|k: int| 0 <= k < data.faces@.len() implies {
            let f = #[trigger] data.faces@[k];
            &&& f.a < data.vertices@.len()
            &&& f.b < data.vertices@.len()
            &&& f.c < data.vertices@.len()
        } by {
            assert(data@.faces[k] == data.faces@[k]@);
        }
    }
    Ok(data)
}

/// Every face names a position within a list of `n` vertices.
pub open spec fn faces_within(faces: Seq<Face>, n: nat) -> bool {
    forall|k: int|
        0 <= k < faces.len() ==> {
            let f = #[trigger] faces[k];
            &&& f.a < n
            &&& f.b < n
            &&& f.c < n
        }
}

/// The corners of each face, copied by value out of the vertex list, in face order.
pub fn face_corners<V: Copy>(vertices: &Vec<V>, faces: &Vec<Face>) -> (r: Vec<(V, V, V)>)
    requires
        faces_within(faces@, vertices@.len()),
    ensures
        r@.len() == faces@.len(),
        forall|k: int|
            0 <= k < faces@.len() ==> #[trigger] r@[k] == (
                vertices@[faces@[k].a as int],
                vertices@[faces@[k].b as int],
                vertices@[faces@[k].c as int],
            ),
{
    let mut r: Vec<(V, V, V)> = Vec::new();
    let mut i: usize = 0;
    while i < faces.len()
        invariant
            i <= faces@.len(),
            faces_within(faces@, vertices@.len()),
            r@.len() == i,
            forall|k: int|
                0 <= k < i ==> #[trigger] r@[k] == (
                    vertices@[faces@[k].a as int],
                    vertices@[faces@[k].b as int],
                    vertices@[faces@[k].c as int],
                ),
        decreases faces@.len() - i,
    {
        let f = faces[i];
        assert(f == faces@[i as int]);
        r.push((vertices[f.a], vertices[f.b], vertices[f.c]));
        i = i + 1;
    }
    r
}

} // verus!
