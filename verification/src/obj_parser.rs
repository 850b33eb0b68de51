//! Reading a triangle mesh from Wavefront OBJ text.

use vstd::prelude::*;
use vstd::string::StringSliceAdditionalSpecFns;
use crate::mesh::{indices_exist, IndexedTriangle, MeshData};
use crate::obj_text::{
    find_line_end, index_of, is_number, is_number_token, parse_index, split_tokens, tokens_of,
    line_end,
};
use crate::scalar::Scalar;

verus! {

/// Why a text could not be read as a mesh. Line numbers start at 1.
#[derive(Debug)]
pub enum ObjParseError {
    NotEnoughArguments(usize, String),
    TooManyArguments(usize, String),
    MultipleObjects(usize),
    InvalidFloat(usize),
    InvalidKeyword(usize, String),
    InvalidVertexReference(usize, String),
    IndexOutOfBounds(String),
}

/// An error in its mathematical form.
pub enum ObjErrorView {
    NotEnoughArguments(int, Seq<char>),
    TooManyArguments(int, Seq<char>),
    MultipleObjects(int),
    InvalidFloat(int),
    InvalidKeyword(int, Seq<char>),
    InvalidVertexReference(int, Seq<char>),
    IndexOutOfBounds(Seq<char>),
}

impl View for ObjParseError {
    type V = ObjErrorView;

    open spec fn view(&self) -> ObjErrorView {
        match self {
            ObjParseError::NotEnoughArguments(line, keyword) => ObjErrorView::NotEnoughArguments(
                *line as int,
                keyword@,
            ),
            ObjParseError::TooManyArguments(line, keyword) => ObjErrorView::TooManyArguments(
                *line as int,
                keyword@,
            ),
            ObjParseError::MultipleObjects(line) => ObjErrorView::MultipleObjects(*line as int),
            ObjParseError::InvalidFloat(line) => ObjErrorView::InvalidFloat(*line as int),
            ObjParseError::InvalidKeyword(line, keyword) => ObjErrorView::InvalidKeyword(
                *line as int,
                keyword@,
            ),
            ObjParseError::InvalidVertexReference(line, message) => ObjErrorView::InvalidVertexReference(
                *line as int,
                message@,
            ),
            ObjParseError::IndexOutOfBounds(name) => ObjErrorView::IndexOutOfBounds(name@),
        }
    }
}

/// The text of one decimal digit.
pub open spec fn digit_of(d: int) -> Seq<char> {
    if d == 0 {
        "0"@
    } else if d == 1 {
        "1"@
    } else if d == 2 {
        "2"@
    } else if d == 3 {
        "3"@
    } else if d == 4 {
        "4"@
    } else if d == 5 {
        "5"@
    } else if d == 6 {
        "6"@
    } else if d == 7 {
        "7"@
    } else if d == 8 {
        "8"@
    } else {
        "9"@
    }
}

/// A number written in decimal digits.
pub open spec fn digits_of(n: int) -> Seq<char>
    decreases n,
{
    if n < 10 {
        digit_of(n)
    } else {
        digits_of(n / 10) + digit_of(n % 10)
    }
}

/// What an error says in words.
pub open spec fn message_of(error: ObjErrorView) -> Seq<char> {
    match error {
        ObjErrorView::NotEnoughArguments(line, keyword) => "Not enough arguments to '"@ + keyword
            + "' in line "@ + digits_of(line),
        ObjErrorView::TooManyArguments(line, keyword) => "Too many arguments to '"@ + keyword
            + "' in line "@ + digits_of(line),
        ObjErrorView::MultipleObjects(line) => "More than one object (second object starts in line "@
            + digits_of(line) + ")"@,
        ObjErrorView::InvalidFloat(line) => "Invalid float in line "@ + digits_of(line),
        ObjErrorView::InvalidKeyword(line, keyword) => "Invalid keyword '"@ + keyword
            + "' in line "@ + digits_of(line),
        ObjErrorView::InvalidVertexReference(line, message) => "Invalid vertex reference in line "@
            + digits_of(line) + ": "@ + message,
        ObjErrorView::IndexOutOfBounds(name) => "Vertex "@ + name + " index out of bounds"@,
    }
}

fn digit_text(d: usize) -> (text: &'static str)
    requires
        d < 10,
    ensures
        text@ == digit_of(d as int),
{
    if d == 0 {
        "0"
    } else if d == 1 {
        "1"
    } else if d == 2 {
        "2"
    } else if d == 3 {
        "3"
    } else if d == 4 {
        "4"
    } else if d == 5 {
        "5"
    } else if d == 6 {
        "6"
    } else if d == 7 {
        "7"
    } else if d == 8 {
        "8"
    } else {
        "9"
    }
}

/// Writes a number in decimal digits.
pub fn decimal_text(n: usize) -> (text: String)
    ensures
        text@ == digits_of(n as int),
    decreases n,
{
    if n < 10 {
        digit_text(n).to_owned()
    } else {
        let mut text = decimal_text(n / 10);
        text.append(digit_text(n % 10));
        text
    }
}

impl ObjParseError {
    /// The error in words.
    pub fn message(&self) -> (text: String)
        ensures
            text@ == message_of(self@),
    {
        match self {
            ObjParseError::NotEnoughArguments(line, keyword) => {
                let mut text = "Not enough arguments to '".to_owned();
                text.append(keyword.as_str());
                text.append("' in line ");
                text.append(decimal_text(*line).as_str());
                text
            },
            ObjParseError::TooManyArguments(line, keyword) => {
                let mut text = "Too many arguments to '".to_owned();
                text.append(keyword.as_str());
                text.append("' in line ");
                text.append(decimal_text(*line).as_str());
                text
            },
            ObjParseError::MultipleObjects(line) => {
                let mut text = "More than one object (second object starts in line ".to_owned();
                text.append(decimal_text(*line).as_str());
                text.append(")");
                text
            },
            ObjParseError::InvalidFloat(line) => {
                let mut text = "Invalid float in line ".to_owned();
                text.append(decimal_text(*line).as_str());
                text
            },
            ObjParseError::InvalidKeyword(line, keyword) => {
                let mut text = "Invalid keyword '".to_owned();
                text.append(keyword.as_str());
                text.append("' in line ");
                text.append(decimal_text(*line).as_str());
                text
            },
            ObjParseError::InvalidVertexReference(line, message) => {
                let mut text = "Invalid vertex reference in line ".to_owned();
                text.append(decimal_text(*line).as_str());
                text.append(": ");
                text.append(message.as_str());
                text
            },
            ObjParseError::IndexOutOfBounds(name) => {
                let mut text = "Vertex ".to_owned();
                text.append(name.as_str());
                text.append(" index out of bounds");
                text
            },
        }
    }
}

/// One corner of a face: a position index, and possibly a texture
/// coordinate index and a normal index, all counted from 0.
pub type VertexRef = (usize, Option<usize>, Option<usize>);

/// The text that bytes stand for, with every malformed sequence replaced by
/// the replacement character.
pub uninterp spec fn lossy_text(bytes: Seq<u8>) -> Seq<char>;

/// True where every byte is an ASCII character.
pub open spec fn is_plain(bytes: Seq<u8>) -> bool {
    forall|i: int| 0 <= i < bytes.len() ==> #[trigger] bytes[i] < 0x80
}

/// ASCII bytes as text, one character for each byte.
pub open spec fn plain_text(bytes: Seq<u8>) -> Seq<char> {
    Seq::new(bytes.len(), |i: int| bytes[i] as char)
}

/// The text that bytes stand for: ASCII bytes stand for themselves, one
/// character each; any other bytes for what `lossy_text` makes of them.
pub open spec fn text_as_written(bytes: Seq<u8>) -> Seq<char> {
    if is_plain(bytes) {
        plain_text(bytes)
    } else {
        lossy_text(bytes)
    }
}

/// Turns bytes into text with `String::from_utf8_lossy`: well-formed
/// UTF-8, and so all ASCII, comes out as it is written, and the result is
/// a function of the bytes alone.
#[verifier::external_body]
fn text_of(bytes: &[u8]) -> (text: String)
    ensures
        text@ == lossy_text(bytes@),
        is_plain(bytes@) ==> text@ == plain_text(bytes@),
{
    String::from_utf8_lossy(bytes).into_owned()
}

/// First index at or after `i` of `token` that holds a slash, or the
/// token's length.
pub open spec fn slash_end(token: Seq<u8>, i: int) -> int
    decreases token.len() - i,
{
    if 0 <= i < token.len() && token[i] != 0x2F {
        slash_end(token, i + 1)
    } else if i > token.len() {
        token.len() as int
    } else {
        i
    }
}

/// An index counted from 1, counted from 0 instead. The index 0, which
/// names nothing, becomes the largest index there is, which no mesh holds.
pub open spec fn zero_based(index: usize) -> usize {
    if index == 0 {
        usize::MAX
    } else {
        (index - 1) as usize
    }
}

pub open spec fn bad_reference(line: int, message: Seq<char>) -> Result<VertexRef, ObjErrorView> {
    Err(ObjErrorView::InvalidVertexReference(line, message))
}

/// The corner that `token` writes: one to three indices separated by
/// slashes, each counted from 1.
pub open spec fn vertex_ref_of(token: Seq<u8>, line: int) -> Result<VertexRef, ObjErrorView> {
    let len = token.len() as int;
    let e0 = slash_end(token, 0);
    let e1 = slash_end(token, e0 + 1);
    let e2 = slash_end(token, e1 + 1);
    match index_of(token.subrange(0, e0)) {
        None => bad_reference(line, "invalid position index"@),
        Some(position) => if e0 >= len {
            Ok((zero_based(position), None, None))
        } else {
            match index_of(token.subrange(e0 + 1, e1)) {
                None => bad_reference(line, "invalid texture coordinate index"@),
                Some(tex_coord) => if e1 >= len {
                    Ok((zero_based(position), Some(zero_based(tex_coord)), None))
                } else {
                    match index_of(token.subrange(e1 + 1, e2)) {
                        None => bad_reference(line, "invalid normal index"@),
                        Some(normal) => if e2 < len {
                            bad_reference(line, "too many slashes"@)
                        } else {
                            Ok(
                                (
                                    zero_based(position),
                                    Some(zero_based(tex_coord)),
                                    Some(zero_based(normal)),
                                ),
                            )
                        },
                    }
                },
            }
        },
    }
}

fn find_slash(bytes: &[u8], base: usize, from: usize, end: usize) -> (at: usize)
    requires
        base <= from <= end <= bytes@.len(),
    ensures
        from <= at <= end,
        at - base == slash_end(bytes@.subrange(base as int, end as int), from - base),
{
    let ghost token = bytes@.subrange(base as int, end as int);
    let mut at: usize = from;
    while at < end && bytes[at] != 0x2F
        invariant
            base <= from <= at <= end <= bytes@.len(),
            token == bytes@.subrange(base as int, end as int),
            slash_end(token, from - base) == slash_end(token, at - base),
        decreases end - at,
    {
        assert(token[at - base] == bytes@[at as int]);
        at += 1;
    }
    assert(at < end ==> token[at - base] == bytes@[at as int]);
    at
}

fn to_zero_based(index: usize) -> (r: usize)
    ensures
        r == zero_based(index),
{
    if index == 0 {
        usize::MAX
    } else {
        index - 1
    }
}

fn reference_error(line_number: usize, message: &str) -> (r: Result<VertexRef, ObjParseError>)
    ensures
        r is Err,
        r->Err_0@ == ObjErrorView::InvalidVertexReference(line_number as int, message@),
{
    Err(ObjParseError::InvalidVertexReference(line_number, message.to_owned()))
}

/// Reads the token from `start` to `end` as a corner of a face.
pub fn vertex_ref_at(bytes: &[u8], start: usize, end: usize, line_number: usize) -> (r: Result<
    VertexRef,
    ObjParseError,
>)
    requires
        start <= end <= bytes@.len(),
    ensures
        match vertex_ref_of(bytes@.subrange(start as int, end as int), line_number as int) {
            Ok(corner) => r == Ok::<VertexRef, ObjParseError>(corner),
            Err(e) => r is Err && r->Err_0@ == e,
        },
{
    let ghost token = bytes@.subrange(start as int, end as int);
    let e0 = find_slash(bytes, start, start, end);
    assert(token.subrange(0, e0 - start) =~= bytes@.subrange(start as int, e0 as int));
    let position = match parse_index(bytes, start, e0) {
        Some(index) => index,
        None => {
            return reference_error(line_number, "invalid position index");
        },
    };
    if e0 >= end {
        return Ok((to_zero_based(position), None, None));
    }
    let e1 = find_slash(bytes, start, e0 + 1, end);
    assert(token.subrange(e0 + 1 - start, e1 - start) =~= bytes@.subrange(e0 + 1, e1 as int));
    let tex_coord = match parse_index(bytes, e0 + 1, e1) {
        Some(index) => index,
        None => {
            return reference_error(line_number, "invalid texture coordinate index");
        },
    };
    if e1 >= end {
        return Ok((to_zero_based(position), Some(to_zero_based(tex_coord)), None));
    }
    let e2 = find_slash(bytes, start, e1 + 1, end);
    assert(token.subrange(e1 + 1 - start, e2 - start) =~= bytes@.subrange(e1 + 1, e2 as int));
    let normal = match parse_index(bytes, e1 + 1, e2) {
        Some(index) => index,
        None => {
            return reference_error(line_number, "invalid normal index");
        },
    };
    if e2 < end {
        return reference_error(line_number, "too many slashes");
    }
    Ok((to_zero_based(position), Some(to_zero_based(tex_coord)), Some(to_zero_based(normal))))
}

/// Reads one corner of a face, written as `p`, `p/t` or `p/t/n` with
/// indices counted from 1.
pub fn parse_vertex_ref(s: &str, line_number: usize) -> (r: Result<VertexRef, ObjParseError>)
    ensures
        match vertex_ref_of(s.spec_bytes(), line_number as int) {
            Ok(corner) => r == Ok::<VertexRef, ObjParseError>(corner),
            Err(e) => r is Err && r->Err_0@ == e,
        },
{
    let bytes = s.as_bytes();
    assert(bytes@.subrange(0, bytes@.len() as int) =~= bytes@);
    vertex_ref_at(bytes, 0, bytes.len(), line_number)
}

/// True where the spans cut the tokens out of the text.
pub open spec fn spans_match(
    bytes: Seq<u8>,
    spans: Seq<(usize, usize)>,
    tokens: Seq<Seq<u8>>,
) -> bool {
    &&& spans.len() == tokens.len()
    &&& forall|k: int|
        0 <= k < spans.len() ==> {
            &&& (#[trigger] spans[k]).0 <= spans[k].1 <= bytes.len()
            &&& tokens[k] == bytes.subrange(spans[k].0 as int, spans[k].1 as int)
        }
}

/// First index at or after `i` of a token that is no corner, or the number
/// of tokens.
pub open spec fn first_bad_ref(tokens: Seq<Seq<u8>>, line: int, i: int) -> int
    decreases tokens.len() - i,
{
    if 0 <= i < tokens.len() && vertex_ref_of(tokens[i], line) is Ok {
        first_bad_ref(tokens, line, i + 1)
    } else {
        i
    }
}

/// Corner `k` of the face that `tokens` write after their keyword.
pub open spec fn corner(tokens: Seq<Seq<u8>>, line: int, k: int) -> VertexRef {
    vertex_ref_of(tokens[k + 1], line)->Ok_0
}

/// True where corner `k` has texture coordinates and a normal exactly
/// where the first corner has them.
pub open spec fn like_first(tokens: Seq<Seq<u8>>, line: int, k: int) -> bool {
    &&& (corner(tokens, line, k).1 is Some) == (corner(tokens, line, 0).1 is Some)
    &&& (corner(tokens, line, k).2 is Some) == (corner(tokens, line, 0).2 is Some)
}

/// First corner at or after `i` that is not like the first one, or the
/// number of corners.
pub open spec fn first_mixed(tokens: Seq<Seq<u8>>, line: int, i: int) -> int
    decreases tokens.len() - 1 - i,
{
    if 0 <= i < tokens.len() - 1 && like_first(tokens, line, i) {
        first_mixed(tokens, line, i + 1)
    } else {
        i
    }
}

/// The triangle with the three corners given.
pub open spec fn fan_triangle(a: VertexRef, b: VertexRef, c: VertexRef) -> IndexedTriangle {
    IndexedTriangle {
        position_indices: (a.0, b.0, c.0),
        normal_indices: if a.2 is Some {
            Some((a.2->0, b.2->0, c.2->0))
        } else {
            None
        },
        tex_coords_indices: if a.1 is Some {
            Some((a.1->0, b.1->0, c.1->0))
        } else {
            None
        },
    }
}

/// The triangles of the face that `tokens` write: all corners must read,
/// there must be three or more, and all must be like the first. The face
/// is cut into a fan of triangles around its first corner.
pub open spec fn face_of(tokens: Seq<Seq<u8>>, line: int) -> Result<
    Seq<IndexedTriangle>,
    ObjErrorView,
> {
    let argc = tokens.len() - 1;
    let bad = first_bad_ref(tokens, line, 1);
    let mixed = first_mixed(tokens, line, 0);
    if bad < tokens.len() {
        Err(vertex_ref_of(tokens[bad], line)->Err_0)
    } else if argc < 3 {
        Err(ObjErrorView::NotEnoughArguments(line, "f"@))
    } else if mixed < argc {
        if (corner(tokens, line, mixed).1 is Some) != (corner(tokens, line, 0).1 is Some) {
            Err(
                ObjErrorView::InvalidVertexReference(
                    line,
                    "only some vertices have texture coordinates"@,
                ),
            )
        } else {
            Err(ObjErrorView::InvalidVertexReference(line, "only some vertices have normals"@))
        }
    } else {
        Ok(
            Seq::new(
                (argc - 2) as nat,
                |i: int|
                    fan_triangle(
                        corner(tokens, line, 0),
                        corner(tokens, line, i + 1),
                        corner(tokens, line, i + 2),
                    ),
            ),
        )
    }
}

fn make_triangle(a: VertexRef, b: VertexRef, c: VertexRef) -> (t: IndexedTriangle)
    requires
        (b.1 is Some) == (a.1 is Some),
        (c.1 is Some) == (a.1 is Some),
        (b.2 is Some) == (a.2 is Some),
        (c.2 is Some) == (a.2 is Some),
    ensures
        t == fan_triangle(a, b, c),
{
    let position_indices = (a.0, b.0, c.0);
    let tex_coords_indices = match (a.1, b.1, c.1) {
        (Some(x), Some(y), Some(z)) => Some((x, y, z)),
        _ => None,
    };
    let normal_indices = match (a.2, b.2, c.2) {
        (Some(x), Some(y), Some(z)) => Some((x, y, z)),
        _ => None,
    };
    IndexedTriangle { position_indices, normal_indices, tex_coords_indices }
}

/// Reads the face that the tokens write after their keyword and appends
/// its triangles.
fn read_face(
    bytes: &[u8],
    spans: &Vec<(usize, usize)>,
    line_number: usize,
    triangles: &mut Vec<IndexedTriangle>,
    Ghost(tokens): Ghost<Seq<Seq<u8>>>,
) -> (r: Result<(), ObjParseError>)
    requires
        spans_match(bytes@, spans@, tokens),
        tokens.len() >= 1,
    ensures
        match face_of(tokens, line_number as int) {
            Ok(added) => r is Ok && final(triangles)@ == old(triangles)@ + added,
            Err(e) => r is Err && r->Err_0@ == e,
        },
{
    let ghost line = line_number as int;
    let count: usize = spans.len();
    let mut corners: Vec<VertexRef> = Vec::new();
    let mut k: usize = 1;
    while k < count
        invariant
            1 <= k <= count,
            count == spans@.len(),
            line == line_number as int,
            spans_match(bytes@, spans@, tokens),
            corners@.len() == k - 1,
            first_bad_ref(tokens, line, 1) == first_bad_ref(tokens, line, k as int),
            forall|i: int| 0 <= i < k - 1 ==> corners@[i] == corner(tokens, line, i),
        decreases count - k,
    {
        let span = spans[k];
        assert(tokens[k as int] == bytes@.subrange(span.0 as int, span.1 as int));
        match vertex_ref_at(bytes, span.0, span.1, line_number) {
            Ok(c) => {
                corners.push(c);
            },
            Err(e) => {
                return Err(e);
            },
        }
        k += 1;
    }
    if corners.len() < 3 {
        return Err(ObjParseError::NotEnoughArguments(line_number, "f".to_owned()));
    }
    let first = corners[0];
    let has_tex_coords: bool = first.1.is_some();
    let has_normals: bool = first.2.is_some();
    let argc: usize = corners.len();
    let mut m: usize = 0;
    while m < argc
        invariant
            m <= argc,
            3 <= argc,
            argc == corners@.len(),
            argc == tokens.len() - 1,
            line == line_number as int,
            first_bad_ref(tokens, line, 1) >= tokens.len(),
            first == corner(tokens, line, 0),
            has_tex_coords == (first.1 is Some),
            has_normals == (first.2 is Some),
            forall|i: int| 0 <= i < argc ==> corners@[i] == corner(tokens, line, i),
            first_mixed(tokens, line, 0) == first_mixed(tokens, line, m as int),
        decreases argc - m,
    {
        let part = corners[m];
        if part.1.is_some() != has_tex_coords {
            return Err(
                ObjParseError::InvalidVertexReference(
                    line_number,
                    "only some vertices have texture coordinates".to_owned(),
                ),
            );
        }
        if part.2.is_some() != has_normals {
            return Err(
                ObjParseError::InvalidVertexReference(
                    line_number,
                    "only some vertices have normals".to_owned(),
                ),
            );
        }
        m += 1;
    }
    let ghost added = face_of(tokens, line)->Ok_0;
    let ghost before = triangles@;
    assert forall|i: int| 0 <= i < argc implies like_first(tokens, line, i) by {
        lemma_none_mixed(tokens, line, 0, i);
    }
    let mut i: usize = 2;
    while i < argc
        invariant
            2 <= i <= argc,
            argc == corners@.len(),
            argc == tokens.len() - 1,
            added.len() == argc - 2,
            forall|j: int| 0 <= j < argc ==> corners@[j] == corner(tokens, line, j),
            forall|j: int| 0 <= j < argc ==> like_first(tokens, line, j),
            forall|j: int|
                0 <= j < argc - 2 ==> added[j] == fan_triangle(
                    corner(tokens, line, 0),
                    corner(tokens, line, j + 1),
                    corner(tokens, line, j + 2),
                ),
            triangles@ =~= before + added.subrange(0, i - 2),
        decreases argc - i,
    {
        assert(like_first(tokens, line, i - 1) && like_first(tokens, line, i as int));
        let triangle = make_triangle(corners[0], corners[i - 1], corners[i]);
        assert(triangle == added[i - 2]);
        triangles.push(triangle);
        i += 1;
    }
    assert(added.subrange(0, argc - 2) =~= added);
    Ok(())
}

/// Where no corner from `from` on is unlike the first, every one of them
/// is like the first.
proof fn lemma_none_mixed(tokens: Seq<Seq<u8>>, line: int, from: int, i: int)
    requires
        0 <= from <= i < tokens.len() - 1,
        first_mixed(tokens, line, from) >= tokens.len() - 1,
    ensures
        like_first(tokens, line, i),
    decreases i - from,
{
    if from < i {
        lemma_none_mixed(tokens, line, from + 1, i);
    }
}

/// What a text says of a mesh, with every number still as it is written.
pub struct Outline {
    /// True once an object name was read.
    pub named: bool,
    pub positions: Seq<(Seq<u8>, Seq<u8>, Seq<u8>)>,
    pub normals: Seq<(Seq<u8>, Seq<u8>, Seq<u8>)>,
    /// The first coordinate, and the second where one is written.
    pub tex_coords: Seq<(Seq<u8>, Option<Seq<u8>>)>,
    pub triangles: Seq<IndexedTriangle>,
}

pub open spec fn empty_outline() -> Outline {
    Outline {
        named: false,
        positions: Seq::empty(),
        normals: Seq::empty(),
        tex_coords: Seq::empty(),
        triangles: Seq::empty(),
    }
}

pub open spec fn word_mtllib() -> Seq<u8> {
    seq!['m' as u8, 't' as u8, 'l' as u8, 'l' as u8, 'i' as u8, 'b' as u8]
}

pub open spec fn word_usemtl() -> Seq<u8> {
    seq!['u' as u8, 's' as u8, 'e' as u8, 'm' as u8, 't' as u8, 'l' as u8]
}

/// The statements a text can hold.
#[derive(Clone, Copy, Debug)]
pub enum Keyword {
    /// A comment, or a statement that is read and ignored.
    Ignored,
    Object,
    Position,
    Normal,
    TexCoord,
    Face,
    Unknown,
}

/// The kind of statement that starts with `word`.
pub open spec fn keyword_of(word: Seq<u8>) -> Keyword {
    if word.len() > 0 && word[0] == '#' as u8 {
        Keyword::Ignored
    } else if word =~= word_mtllib() || word =~= word_usemtl() || word =~= seq!['s' as u8] {
        Keyword::Ignored
    } else if word =~= seq!['o' as u8] {
        Keyword::Object
    } else if word =~= seq!['v' as u8] {
        Keyword::Position
    } else if word =~= seq!['v' as u8, 'n' as u8] {
        Keyword::Normal
    } else if word =~= seq!['v' as u8, 't' as u8] {
        Keyword::TexCoord
    } else if word =~= seq!['f' as u8] {
        Keyword::Face
    } else {
        Keyword::Unknown
    }
}

/// True where every token after the keyword writes a number.
pub open spec fn arguments_are_numbers(tokens: Seq<Seq<u8>>) -> bool {
    forall|k: int| 1 <= k < tokens.len() ==> is_number(#[trigger] tokens[k])
}

/// A statement of numbers with between `least` and `most` arguments.
pub open spec fn number_statement(
    tokens: Seq<Seq<u8>>,
    line: int,
    keyword: Seq<char>,
    least: int,
    most: int,
) -> Option<ObjErrorView> {
    if !arguments_are_numbers(tokens) {
        Some(ObjErrorView::InvalidFloat(line))
    } else if tokens.len() - 1 < least {
        Some(ObjErrorView::NotEnoughArguments(line, keyword))
    } else if tokens.len() - 1 > most {
        Some(ObjErrorView::TooManyArguments(line, keyword))
    } else {
        None
    }
}

/// The outline after the statement that `tokens` write in line `line`.
pub open spec fn apply(outline: Outline, tokens: Seq<Seq<u8>>, line: int) -> Result<
    Outline,
    ObjErrorView,
> {
    if tokens.len() == 0 {
        Ok(outline)
    } else {
        let argc = tokens.len() - 1;
        match keyword_of(tokens[0]) {
            Keyword::Ignored => Ok(outline),
            Keyword::Object => if argc < 1 {
                Err(ObjErrorView::NotEnoughArguments(line, "o"@))
            } else if argc > 1 {
                Err(ObjErrorView::TooManyArguments(line, "o"@))
            } else if outline.named {
                Err(ObjErrorView::MultipleObjects(line))
            } else {
                Ok(Outline { named: true, ..outline })
            },
            Keyword::Position => match number_statement(tokens, line, "v"@, 3, 4) {
                Some(e) => Err(e),
                None => Ok(
                    Outline {
                        positions: outline.positions.push((tokens[1], tokens[2], tokens[3])),
                        ..outline
                    },
                ),
            },
            Keyword::Normal => match number_statement(tokens, line, "vn"@, 3, 3) {
                Some(e) => Err(e),
                None => Ok(
                    Outline {
                        normals: outline.normals.push((tokens[1], tokens[2], tokens[3])),
                        ..outline
                    },
                ),
            },
            Keyword::TexCoord => match number_statement(tokens, line, "vt"@, 1, 3) {
                Some(e) => Err(e),
                None => Ok(
                    Outline {
                        tex_coords: outline.tex_coords.push(
                            (
                                tokens[1],
                                if argc > 1 {
                                    Some(tokens[2])
                                } else {
                                    None
                                },
                            ),
                        ),
                        ..outline
                    },
                ),
            },
            Keyword::Face => match face_of(tokens, line) {
                Err(e) => Err(e),
                Ok(added) => Ok(Outline { triangles: outline.triangles + added, ..outline }),
            },
            Keyword::Unknown => Err(ObjErrorView::InvalidKeyword(line, text_as_written(tokens[0]))),
        }
    }
}

/// The outline after all lines from the one that starts at `pos`, which is
/// line `line`, or the first error met.
pub open spec fn scan(bytes: Seq<u8>, pos: int, line: int, outline: Outline) -> Result<
    Outline,
    ObjErrorView,
>
    decreases bytes.len() - pos,
{
    if !(0 <= pos <= bytes.len()) {
        Ok(outline)
    } else {
        let end = line_end(bytes, pos);
        match apply(outline, tokens_of(bytes, pos, end), line) {
            Err(e) => Err(e),
            Ok(next) => if pos <= end < bytes.len() {
                scan(bytes, end + 1, line + 1, next)
            } else {
                Ok(next)
            },
        }
    }
}

/// What is wrong with the indices of one triangle, if anything: its
/// positions are looked at first, then its texture coordinates, then its
/// normals.
pub open spec fn triangle_fault(
    triangle: IndexedTriangle,
    positions: int,
    tex_coords: int,
    normals: int,
) -> Option<ObjErrorView> {
    if !indices_exist(triangle.position_indices, positions) {
        Some(ObjErrorView::IndexOutOfBounds("position"@))
    } else if triangle.tex_coords_indices is Some && !indices_exist(
        triangle.tex_coords_indices->0,
        tex_coords,
    ) {
        Some(ObjErrorView::IndexOutOfBounds("texture coordinates"@))
    } else if triangle.normal_indices is Some && !indices_exist(
        triangle.normal_indices->0,
        normals,
    ) {
        Some(ObjErrorView::IndexOutOfBounds("normal"@))
    } else {
        None
    }
}

/// First triangle at or after `i` with a fault, or the number of triangles.
pub open spec fn first_fault(outline: Outline, i: int) -> int
    decreases outline.triangles.len() - i,
{
    if 0 <= i < outline.triangles.len() && triangle_fault(
        outline.triangles[i],
        outline.positions.len() as int,
        outline.tex_coords.len() as int,
        outline.normals.len() as int,
    ) is None {
        first_fault(outline, i + 1)
    } else {
        i
    }
}

/// What a text says of a mesh: the outline after its last line, with every
/// index of every triangle in bounds, or the first error.
pub open spec fn outline_of(bytes: Seq<u8>) -> Result<Outline, ObjErrorView> {
    match scan(bytes, 0, 1, empty_outline()) {
        Err(e) => Err(e),
        Ok(outline) => {
            let bad = first_fault(outline, 0);
            if bad < outline.triangles.len() {
                Err(
                    triangle_fault(
                        outline.triangles[bad],
                        outline.positions.len() as int,
                        outline.tex_coords.len() as int,
                        outline.normals.len() as int,
                    )->0,
                )
            } else {
                Ok(outline)
            }
        },
    }
}

/// True where `number` can give `value` for `token`.
pub open spec fn converts<N: Fn(&[u8]) -> Scalar>(number: &N, token: Seq<u8>, value: Scalar) -> bool {
    exists|s: &[u8]| s@ == token && #[trigger] number.ensures((s,), value)
}

/// True where `number` can give the three values for the three tokens.
pub open spec fn converts_triple<N: Fn(&[u8]) -> Scalar>(
    number: &N,
    tokens: (Seq<u8>, Seq<u8>, Seq<u8>),
    values: (Scalar, Scalar, Scalar),
) -> bool {
    &&& converts(number, tokens.0, values.0)
    &&& converts(number, tokens.1, values.1)
    &&& converts(number, tokens.2, values.2)
}

/// True where `normalize` can give `unit` for values that `number` can
/// give for the three tokens.
pub open spec fn normal_from<
    N: Fn(&[u8]) -> Scalar,
    U: Fn(Scalar, Scalar, Scalar) -> (Scalar, Scalar, Scalar),
>(number: &N, normalize: &U, tokens: (Seq<u8>, Seq<u8>, Seq<u8>), unit: (Scalar, Scalar, Scalar)) -> bool {
    exists|raw: (Scalar, Scalar, Scalar)|
        converts_triple(number, tokens, raw) && #[trigger] normalize.ensures(
            (raw.0, raw.1, raw.2),
            unit,
        )
}

/// True where the mesh holds what the outline says: the same triangles,
/// each position as `number` gives it, each normal as `normalize` gives it
/// from what `number` gives, and each texture coordinate as `number` gives
/// it, with zero for a second coordinate that is not written.
pub open spec fn realizes<
    N: Fn(&[u8]) -> Scalar,
    U: Fn(Scalar, Scalar, Scalar) -> (Scalar, Scalar, Scalar),
>(mesh: MeshData, outline: Outline, number: &N, normalize: &U) -> bool {
    &&& mesh.triangles@ == outline.triangles
    &&& mesh.vertex_positions@.len() == outline.positions.len()
    &&& mesh.vertex_normals@.len() == outline.normals.len()
    &&& mesh.vertex_tex_coords@.len() == outline.tex_coords.len()
    &&& forall|i: int|
        0 <= i < outline.positions.len() ==> converts_triple(
            number,
            outline.positions[i],
            #[trigger] mesh.vertex_positions@[i],
        )
    &&& forall|i: int|
        0 <= i < outline.normals.len() ==> normal_from(
            number,
            normalize,
            outline.normals[i],
            #[trigger] mesh.vertex_normals@[i],
        )
    &&& forall|i: int|
        0 <= i < outline.tex_coords.len() ==> {
            &&& converts(number, outline.tex_coords[i].0, (#[trigger] mesh.vertex_tex_coords@[i]).0)
            &&& match outline.tex_coords[i].1 {
                Some(token) => converts(number, token, mesh.vertex_tex_coords@[i].1),
                None => mesh.vertex_tex_coords@[i].1 == (Scalar { bits: 0 }),
            }
        }
}

/// Decides whether the bytes from `start` to `end` are the first `n` bytes
/// of `word`.
fn token_equals(bytes: &[u8], start: usize, end: usize, word: &[u8; 8], n: usize) -> (r: bool)
    requires
        start <= end <= bytes@.len(),
        n <= 8,
    ensures
        r == (bytes@.subrange(start as int, end as int) =~= word@.subrange(0, n as int)),
{
    let ghost token = bytes@.subrange(start as int, end as int);
    let ghost wanted = word@.subrange(0, n as int);
    if end - start != n {
        return false;
    }
    let mut k: usize = 0;
    while k < n
        invariant
            k <= n <= 8,
            start + n == end,
            end <= bytes@.len(),
            token == bytes@.subrange(start as int, end as int),
            wanted == word@.subrange(0, n as int),
            forall|m: int| 0 <= m < k ==> token[m] == wanted[m],
        decreases n - k,
    {
        assert(token[k as int] == bytes@[start + k]);
        assert(wanted[k as int] == word@[k as int]);
        if bytes[start + k] != word[k] {
            return false;
        }
        k += 1;
    }
    true
}

/// Decides what kind of statement starts with the token from `start` to
/// `end`.
fn classify(bytes: &[u8], start: usize, end: usize) -> (keyword: Keyword)
    requires
        start <= end <= bytes@.len(),
    ensures
        keyword == keyword_of(bytes@.subrange(start as int, end as int)),
{
    let ghost token = bytes@.subrange(start as int, end as int);
    if start < end && bytes[start] == '#' as u8 {
        assert(token[0] == bytes@[start as int]);
        return Keyword::Ignored;
    }
    assert(token.len() > 0 ==> token[0] == bytes@[start as int]);
    let mtllib: [u8; 8] = ['m' as u8, 't' as u8, 'l' as u8, 'l' as u8, 'i' as u8, 'b' as u8, 0, 0];
    let usemtl: [u8; 8] = ['u' as u8, 's' as u8, 'e' as u8, 'm' as u8, 't' as u8, 'l' as u8, 0, 0];
    let s: [u8; 8] = ['s' as u8, 0, 0, 0, 0, 0, 0, 0];
    let o: [u8; 8] = ['o' as u8, 0, 0, 0, 0, 0, 0, 0];
    let vn: [u8; 8] = ['v' as u8, 'n' as u8, 0, 0, 0, 0, 0, 0];
    let vt: [u8; 8] = ['v' as u8, 't' as u8, 0, 0, 0, 0, 0, 0];
    let f: [u8; 8] = ['f' as u8, 0, 0, 0, 0, 0, 0, 0];
    proof {
        assert(mtllib@.subrange(0, 6) =~= word_mtllib());
        assert(usemtl@.subrange(0, 6) =~= word_usemtl());
        assert(s@.subrange(0, 1) =~= seq!['s' as u8]);
        assert(o@.subrange(0, 1) =~= seq!['o' as u8]);
        assert(vn@.subrange(0, 1) =~= seq!['v' as u8]);
        assert(vn@.subrange(0, 2) =~= seq!['v' as u8, 'n' as u8]);
        assert(vt@.subrange(0, 2) =~= seq!['v' as u8, 't' as u8]);
        assert(f@.subrange(0, 1) =~= seq!['f' as u8]);
    }
    if token_equals(bytes, start, end, &mtllib, 6) || token_equals(bytes, start, end, &usemtl, 6)
        || token_equals(bytes, start, end, &s, 1) {
        Keyword::Ignored
    } else if token_equals(bytes, start, end, &o, 1) {
        Keyword::Object
    } else if token_equals(bytes, start, end, &vn, 1) {
        Keyword::Position
    } else if token_equals(bytes, start, end, &vn, 2) {
        Keyword::Normal
    } else if token_equals(bytes, start, end, &vt, 2) {
        Keyword::TexCoord
    } else if token_equals(bytes, start, end, &f, 1) {
        Keyword::Face
    } else {
        Keyword::Unknown
    }
}

/// Decides whether every token after the keyword writes a number.
fn arguments_numeric(bytes: &[u8], spans: &Vec<(usize, usize)>, Ghost(tokens): Ghost<Seq<Seq<u8>>>) -> (r:
    bool)
    requires
        spans_match(bytes@, spans@, tokens),
    ensures
        r == arguments_are_numbers(tokens),
{
    let mut k: usize = 1;
    while k < spans.len()
        invariant
            1 <= k,
            spans_match(bytes@, spans@, tokens),
            forall|m: int| 1 <= m < k && m < tokens.len() ==> is_number(#[trigger] tokens[m]),
        decreases spans@.len() - k,
    {
        let span = spans[k];
        assert(tokens[k as int] == bytes@.subrange(span.0 as int, span.1 as int));
        if !is_number_token(bytes, span.0, span.1) {
            return false;
        }
        k += 1;
    }
    true
}

/// Checks a statement of numbers: every argument a number, and between
/// `least` and `most` of them.
fn check_numbers(
    bytes: &[u8],
    spans: &Vec<(usize, usize)>,
    line_number: usize,
    keyword: &str,
    least: usize,
    most: usize,
    Ghost(tokens): Ghost<Seq<Seq<u8>>>,
) -> (r: Result<(), ObjParseError>)
    requires
        spans_match(bytes@, spans@, tokens),
        tokens.len() >= 1,
    ensures
        match number_statement(tokens, line_number as int, keyword@, least as int, most as int) {
            Some(e) => r is Err && r->Err_0@ == e,
            None => r is Ok,
        },
{
    if !arguments_numeric(bytes, spans, Ghost(tokens)) {
        return Err(ObjParseError::InvalidFloat(line_number));
    }
    let argc: usize = spans.len() - 1;
    if argc < least {
        return Err(ObjParseError::NotEnoughArguments(line_number, keyword.to_owned()));
    }
    if argc > most {
        return Err(ObjParseError::TooManyArguments(line_number, keyword.to_owned()));
    }
    Ok(())
}

/// Asks `number` for the value of the token cut out by `span`.
fn convert<N: Fn(&[u8]) -> Scalar>(bytes: &[u8], span: (usize, usize), number: &N) -> (value:
    Scalar)
    requires
        span.0 <= span.1 <= bytes@.len(),
        forall|s: &[u8]| number.requires((s,)),
    ensures
        converts(number, bytes@.subrange(span.0 as int, span.1 as int), value),
{
    let piece = vstd::slice::slice_subrange(bytes, span.0, span.1);
    number(piece)
}

/// Reads the statement that the tokens of one line write into the mesh.
fn read_statement<
    N: Fn(&[u8]) -> Scalar,
    U: Fn(Scalar, Scalar, Scalar) -> (Scalar, Scalar, Scalar),
>(
    bytes: &[u8],
    spans: &Vec<(usize, usize)>,
    line_number: usize,
    mesh: &mut MeshData,
    named: &mut bool,
    number: &N,
    normalize: &U,
    Ghost(tokens): Ghost<Seq<Seq<u8>>>,
    Ghost(outline): Ghost<Outline>,
) -> (r: Result<(), ObjParseError>)
    requires
        spans_match(bytes@, spans@, tokens),
        realizes(*old(mesh), outline, number, normalize),
        *old(named) == outline.named,
        forall|s: &[u8]| number.requires((s,)),
        forall|x: Scalar, y: Scalar, z: Scalar| normalize.requires((x, y, z)),
    ensures
        match apply(outline, tokens, line_number as int) {
            Err(e) => r is Err && r->Err_0@ == e,
            Ok(next) => r is Ok && realizes(*final(mesh), next, number, normalize) && *final(named)
                == next.named,
        },
{
    if spans.len() == 0 {
        return Ok(());
    }
    let argc: usize = spans.len() - 1;
    let first = spans[0];
    assert(tokens[0] == bytes@.subrange(first.0 as int, first.1 as int));
    let ghost before = *mesh;
    match classify(bytes, first.0, first.1) {
        Keyword::Ignored => {
            return Ok(());
        },
        Keyword::Object => {
            if argc < 1 {
                return Err(ObjParseError::NotEnoughArguments(line_number, "o".to_owned()));
            }
            if argc > 1 {
                return Err(ObjParseError::TooManyArguments(line_number, "o".to_owned()));
            }
            if *named {
                return Err(ObjParseError::MultipleObjects(line_number));
            }
            *named = true;
            return Ok(());
        },
        Keyword::Position => {
            match check_numbers(bytes, spans, line_number, "v", 3, 4, Ghost(tokens)) {
                Err(e) => {
                    return Err(e);
                },
                Ok(()) => {},
            }
            let x = convert(bytes, spans[1], number);
            let y = convert(bytes, spans[2], number);
            let z = convert(bytes, spans[3], number);
            mesh.vertex_positions.push((x, y, z));
            proof {
                let next = apply(outline, tokens, line_number as int)->Ok_0;
                assert forall|i: int| 0 <= i < next.positions.len() implies converts_triple(
                    number,
                    next.positions[i],
                    #[trigger] mesh.vertex_positions@[i],
                ) by {
                    if i < outline.positions.len() {
                        assert(mesh.vertex_positions@[i] == before.vertex_positions@[i]);
                    }
                }
            }
            return Ok(());
        },
        Keyword::Normal => {
            match check_numbers(bytes, spans, line_number, "vn", 3, 3, Ghost(tokens)) {
                Err(e) => {
                    return Err(e);
                },
                Ok(()) => {},
            }
            let x = convert(bytes, spans[1], number);
            let y = convert(bytes, spans[2], number);
            let z = convert(bytes, spans[3], number);
            let unit = normalize(x, y, z);
            mesh.vertex_normals.push(unit);
            proof {
                let next = apply(outline, tokens, line_number as int)->Ok_0;
                assert forall|i: int| 0 <= i < next.normals.len() implies normal_from(
                    number,
                    normalize,
                    next.normals[i],
                    #[trigger] mesh.vertex_normals@[i],
                ) by {
                    if i < outline.normals.len() {
                        assert(mesh.vertex_normals@[i] == before.vertex_normals@[i]);
                    } else {
                        assert(converts_triple(number, next.normals[i], (x, y, z)));
                    }
                }
            }
            return Ok(());
        },
        Keyword::TexCoord => {
            match check_numbers(bytes, spans, line_number, "vt", 1, 3, Ghost(tokens)) {
                Err(e) => {
                    return Err(e);
                },
                Ok(()) => {},
            }
            let u = convert(bytes, spans[1], number);
            let v = if argc > 1 {
                convert(bytes, spans[2], number)
            } else {
                Scalar::zero()
            };
            mesh.vertex_tex_coords.push((u, v));
            proof {
                let next = apply(outline, tokens, line_number as int)->Ok_0;
                assert forall|i: int| 0 <= i < next.tex_coords.len() implies {
                    &&& converts(
                        number,
                        next.tex_coords[i].0,
                        (#[trigger] mesh.vertex_tex_coords@[i]).0,
                    )
                    &&& match next.tex_coords[i].1 {
                        Some(token) => converts(number, token, mesh.vertex_tex_coords@[i].1),
                        None => mesh.vertex_tex_coords@[i].1 == (Scalar { bits: 0 }),
                    }
                } by {
                    if i < outline.tex_coords.len() {
                        assert(mesh.vertex_tex_coords@[i] == before.vertex_tex_coords@[i]);
                    }
                }
            }
            return Ok(());
        },
        Keyword::Face => {
            return read_face(bytes, spans, line_number, &mut mesh.triangles, Ghost(tokens));
        },
        Keyword::Unknown => {
            let piece = vstd::slice::slice_subrange(bytes, first.0, first.1);
            return Err(ObjParseError::InvalidKeyword(line_number, text_of(piece)));
        },
    }
}

fn indices_in_bounds(indices: &(usize, usize, usize), len: usize) -> (r: bool)
    ensures
        r == indices_exist(*indices, len as int),
{
    indices.0 < len && indices.1 < len && indices.2 < len
}

/// Where no triangle from `from` on has a fault, none of them has.
proof fn lemma_no_fault(outline: Outline, from: int, i: int)
    requires
        0 <= from <= i < outline.triangles.len(),
        first_fault(outline, from) >= outline.triangles.len(),
    ensures
        triangle_fault(
            outline.triangles[i],
            outline.positions.len() as int,
            outline.tex_coords.len() as int,
            outline.normals.len() as int,
        ) is None,
    decreases i - from,
{
    if from < i {
        lemma_no_fault(outline, from + 1, i);
    }
}

/// Reader of Wavefront OBJ text.
pub struct ObjParser {}

impl ObjParser {
    /// Reads a mesh from OBJ text.
    ///
    /// Each line holds one statement: `v x y z [w]` a position, `vn x y z`
    /// a normal, `vt u [v [w]]` a texture coordinate, `f` and three or more
    /// corners a face, `o` and a name the one object of the text. Comments
    /// and the statements `mtllib`, `usemtl` and `s` are passed over. The
    /// library decides which tokens write numbers; `number` supplies the
    /// value of each such token and `normalize` scales a normal to unit
    /// length. After the last line every index of every triangle must lie
    /// in bounds. The first error met ends the reading.
    pub fn parse<
        N: Fn(&[u8]) -> Scalar,
        U: Fn(Scalar, Scalar, Scalar) -> (Scalar, Scalar, Scalar),
    >(obj_str: &str, number: &N, normalize: &U) -> (r: Result<MeshData, ObjParseError>)
        requires
            obj_str.spec_bytes().len() < usize::MAX,
            forall|s: &[u8]| number.requires((s,)),
            forall|x: Scalar, y: Scalar, z: Scalar| normalize.requires((x, y, z)),
        ensures
            match outline_of(obj_str.spec_bytes()) {
                Err(e) => r is Err && r->Err_0@ == e,
                Ok(outline) => r is Ok && realizes(r->Ok_0, outline, number, normalize)
                    && r->Ok_0.indices_valid(),
            },
    {
        let bytes = obj_str.as_bytes();
        let mut mesh = MeshData {
            vertex_positions: Vec::new(),
            vertex_normals: Vec::new(),
            vertex_tex_coords: Vec::new(),
            triangles: Vec::new(),
        };
        let mut named: bool = false;
        let ghost mut outline = empty_outline();
        let mut pos: usize = 0;
        let mut line_number: usize = 1;
        loop
            invariant_except_break
                scan(bytes@, 0, 1, empty_outline()) == scan(
                    bytes@,
                    pos as int,
                    line_number as int,
                    outline,
                ),
            invariant
                bytes@ == obj_str.spec_bytes(),
                bytes@.len() < usize::MAX,
                pos <= bytes@.len(),
                1 <= line_number <= pos + 1,
                forall|s: &[u8]| number.requires((s,)),
                forall|x: Scalar, y: Scalar, z: Scalar| normalize.requires((x, y, z)),
                realizes(mesh, outline, number, normalize),
                named == outline.named,
            ensures
                realizes(mesh, outline, number, normalize),
                scan(bytes@, 0, 1, empty_outline()) == Ok::<Outline, ObjErrorView>(outline),
            decreases bytes@.len() - pos,
        {
            let end = find_line_end(bytes, pos);
            let spans = split_tokens(bytes, pos, end);
            let ghost tokens = tokens_of(bytes@, pos as int, end as int);
            match read_statement(
                bytes,
                &spans,
                line_number,
                &mut mesh,
                &mut named,
                number,
                normalize,
                Ghost(tokens),
                Ghost(outline),
            ) {
                Err(e) => {
                    return Err(e);
                },
                Ok(()) => {},
            }
            proof {
                outline = apply(outline, tokens, line_number as int)->Ok_0;
            }
            if end >= bytes.len() {
                break;
            }
            pos = end + 1;
            line_number = line_number + 1;
        }

        let positions: usize = mesh.vertex_positions.len();
        let tex_coords: usize = mesh.vertex_tex_coords.len();
        let normals: usize = mesh.vertex_normals.len();
        let mut t: usize = 0;
        while t < mesh.triangles.len()
            invariant
                t <= mesh.triangles@.len(),
                bytes@ == obj_str.spec_bytes(),
                scan(bytes@, 0, 1, empty_outline()) == Ok::<Outline, ObjErrorView>(outline),
                mesh.triangles@ == outline.triangles,
                positions == outline.positions.len(),
                tex_coords == outline.tex_coords.len(),
                normals == outline.normals.len(),
                first_fault(outline, 0) == first_fault(outline, t as int),
            decreases mesh.triangles@.len() - t,
        {
            let triangle = &mesh.triangles[t];
            if !indices_in_bounds(&triangle.position_indices, positions) {
                return Err(ObjParseError::IndexOutOfBounds("position".to_owned()));
            }
            if let Some(tex_coords_indices) = &triangle.tex_coords_indices {
                if !indices_in_bounds(tex_coords_indices, tex_coords) {
                    return Err(ObjParseError::IndexOutOfBounds("texture coordinates".to_owned()));
                }
            }
            if let Some(normal_indices) = &triangle.normal_indices {
                if !indices_in_bounds(normal_indices, normals) {
                    return Err(ObjParseError::IndexOutOfBounds("normal".to_owned()));
                }
            }
            t += 1;
        }
        proof {
            assert forall|i: int| 0 <= i < mesh.triangles@.len() implies (
            #[trigger] mesh.triangles@[i]).in_bounds(
                mesh.vertex_positions@.len() as int,
                mesh.vertex_normals@.len() as int,
                mesh.vertex_tex_coords@.len() as int,
            ) by {
                lemma_no_fault(outline, 0, i);
            }
        }
        Ok(mesh)
    }
}

} // verus!
