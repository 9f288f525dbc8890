//! Triangle meshes read from Wavefront OBJ text.
//!
//! The text is parsed by the `wavefront_obj` crate. What is read here from
//! the parsed model is its shape alone: which objects it has, which faces
//! they have, and which vertices of its object each face names by index.
//! The coordinates of the vertices stay in the model for the caller.

use std::sync::Arc;
use vstd::prelude::*;
use vstd::string::StringSliceAdditionalSpecFns;
use wavefront_obj::obj::ObjSet;
use wavefront_obj::ParseError;

verus! {

/// A parsed model, as `wavefront_obj` holds it.
#[verifier::external_type_specification]
#[verifier::external_body]
pub struct ExObjSet(ObjSet);

/// The error of the parser of `wavefront_obj`.
#[verifier::external_type_specification]
#[verifier::external_body]
pub struct ExParseError(ParseError);

/// What a shape of a model is: a triangle with the indices of its three
/// corners among the vertices of its object, or something else.
#[derive(Copy, Clone, PartialEq, Eq, Debug)]
pub enum Face {
    Triangle(usize, usize, usize),
    Other,
}

/// A triangle of a model: the index of its object, and the indices of its
/// corners among the vertices of that object.
#[derive(Copy, Clone, PartialEq, Eq, Debug)]
pub struct Corners {
    pub object: usize,
    pub a: usize,
    pub b: usize,
    pub c: usize,
}

/// Why a text gave no model.
#[derive(Debug)]
pub enum ObjError {
    /// The text is longer than `MAX_TEXT` bytes, or a minus sign in one of
    /// its records of faces or lines is followed by `MAX_DIGITS` digits or
    /// more.
    Oversized,
    /// The parser refused the text.
    Parse { line_number: usize, message: String },
}

/// The shapes of a model: for each object its geometries, for each geometry
/// its shapes, in the order of the model.
pub uninterp spec fn model_shapes(set: ObjSet) -> Seq<Seq<Seq<Face>>>;

/// The number of vertices of each object of a model.
pub uninterp spec fn model_vertices(set: ObjSet) -> Seq<nat>;

/// Reads `ObjSet::objects.len()`. Claimed: the result is the number of
/// objects of the model, which is the length of both lists that describe
/// the model here.
#[verifier::external_body]
fn object_count(set: &ObjSet) -> (n: usize)
    ensures
        n == model_shapes(*set).len(),
        n == model_vertices(*set).len(),
{
    set.objects.len()
}

/// Reads `Object::vertices.len()` of object `o`. Claimed: the result is the
/// number of vertices that the model has for that object.
#[verifier::external_body]
fn vertex_count(set: &ObjSet, o: usize) -> (n: usize)
    requires
        o < model_vertices(*set).len(),
    ensures
        n == model_vertices(*set)[o as int],
{
    set.objects[o].vertices.len()
}

/// Reads `Object::geometry.len()` of object `o`. Claimed: the result is the
/// number of geometries that the model has for that object.
#[verifier::external_body]
fn geometry_count(set: &ObjSet, o: usize) -> (n: usize)
    requires
        o < model_shapes(*set).len(),
    ensures
        n == model_shapes(*set)[o as int].len(),
{
    set.objects[o].geometry.len()
}

/// Reads `Geometry::shapes.len()` of geometry `g` of object `o`. Claimed:
/// the result is the number of shapes that the model has there.
#[verifier::external_body]
fn shape_count(set: &ObjSet, o: usize, g: usize) -> (n: usize)
    requires
        o < model_shapes(*set).len(),
        g < model_shapes(*set)[o as int].len(),
    ensures
        n == model_shapes(*set)[o as int][g as int].len(),
{
    set.objects[o].geometry[g].shapes.len()
}

/// Reads `Shape::primitive` of shape `s` of geometry `g` of object `o`.
/// Claimed: the result is the shape that the model has there, a
/// `Primitive::Triangle` as a triangle with the vertex index of each of its
/// three corners, a line or a point as something else.
#[verifier::external_body]
fn shape_at(set: &ObjSet, o: usize, g: usize, s: usize) -> (face: Face)
    requires
        o < model_shapes(*set).len(),
        g < model_shapes(*set)[o as int].len(),
        s < model_shapes(*set)[o as int][g as int].len(),
    ensures
        face == model_shapes(*set)[o as int][g as int][s as int],
{
    match set.objects[o].geometry[g].shapes[s].primitive {
        wavefront_obj::obj::Primitive::Triangle(a, b, c) => Face::Triangle(a.0, b.0, c.0),
        wavefront_obj::obj::Primitive::Line(..) => Face::Other,
        wavefront_obj::obj::Primitive::Point(..) => Face::Other,
    }
}

/// Reads `ParseError::line_number` and `ParseError::message`: the line at
/// which the parser gave up, and its words. Nothing is claimed of them.
#[verifier::external_body]
fn describe(error: ParseError) -> (parts: (usize, String)) {
    (error.line_number, error.message)
}

/// The longest text that is handed to the parser, in bytes.
pub const MAX_TEXT: usize = 0x3fff_ffff;

/// In a record of faces or lines, a minus sign may be followed by fewer
/// digits than this.
pub const MAX_DIGITS: usize = 10;

/// Whether the byte is a decimal digit.
pub open spec fn is_digit(b: u8) -> bool {
    0x30 <= b <= 0x39
}

/// Whether the byte is a space, a tab or a carriage return: what may stand
/// between the words of a line.
pub open spec fn is_blank(b: u8) -> bool {
    b == 0x20 || b == 0x09 || b == 0x0d
}

/// Whether the byte is an `f` or an `l`, with which the records of faces
/// and of lines begin.
pub open spec fn is_face_tag(b: u8) -> bool {
    b == 0x66 || b == 0x6c
}

/// Whether the `n` bytes from `at` on are all digits.
pub open spec fn digits_from(text: Seq<u8>, at: int, n: int) -> bool {
    &&& at + n <= text.len()
    &&& forall|k: int| at <= k < at + n ==> is_digit(#[trigger] text[k])
}

/// Whether a line begins at `start`, and `tag` is the first place of that
/// line that holds no blank.
pub open spec fn is_first_word(text: Seq<u8>, start: int, tag: int) -> bool {
    &&& 0 <= start <= tag < text.len()
    &&& (start == 0 || text[start - 1] == 0x0a)
    &&& forall|j: int| start <= j < tag ==> is_blank(#[trigger] text[j])
    &&& !is_blank(text[tag])
    &&& text[tag] != 0x0a
}

/// Whether place `i` stands in a record of faces or lines, before any
/// comment: on the line of `i`, the first byte that is no blank is an `f` or
/// an `l` and stands before `i`, and no `#` stands between the two.
pub open spec fn in_face_record(text: Seq<u8>, i: int) -> bool {
    exists|start: int, tag: int|
        {
            &&& #[trigger] is_first_word(text, start, tag)
            &&& is_face_tag(text[tag])
            &&& tag < i <= text.len()
            &&& forall|j: int| tag <= j < i ==> #[trigger] text[j] != 0x0a && text[j] != 0x23
        }
}

/// Whether the text is of a size that the parser takes: it is no longer
/// than `MAX_TEXT`, and no minus sign in a record of faces or lines is
/// followed by `MAX_DIGITS` digits. Numbers elsewhere, such as the
/// coordinates of a vertex or what a comment holds, may have any length.
pub open spec fn parsable_size(text: Seq<u8>) -> bool {
    &&& text.len() <= MAX_TEXT
    &&& forall|i: int|
        0 <= i < text.len() && #[trigger] text[i] == 0x2d && in_face_record(text, i)
            ==> !digits_from(text, i + 1, MAX_DIGITS as int)
}

/// What the parser of `wavefront_obj` makes of a text: the shapes of the
/// model that the text describes with the number of vertices of each of its
/// objects, or `None` where the parser refuses the text.
pub uninterp spec fn parsed_model(text: Seq<u8>) -> Option<(Seq<Seq<Seq<Face>>>, Seq<nat>)>;

/// Calls `wavefront_obj::obj::parse`, which gives the model that the text
/// describes or an error. Claimed: the parser's answer depends on the text
/// alone, so that a model that it gives has the shapes and the vertex
/// counts that belong to the text, and an error means that the text has
/// none. In a record of faces or lines, up to the `#` of a comment, the
/// parser adds the digits behind a minus sign, read as a number, to a count
/// of vertices of the text; the text is kept to a size at which that sum
/// fits the machine's integers.
#[verifier::external_body]
fn parse(text: &str) -> (parsed: Result<ObjSet, ParseError>)
    requires
        parsable_size(text.spec_bytes()),
    ensures
        match parsed {
            Ok(set) => parsed_model(text.spec_bytes()) == Some(
                (model_shapes(set), model_vertices(set)),
            ),
            Err(_) => parsed_model(text.spec_bytes()) is None,
        },
{
    wavefront_obj::obj::parse(text)
}

/// What is known of the line of place `i` decides whether `i` stands in a
/// record of faces or lines.
proof fn lemma_face_record(
    text: Seq<u8>,
    start: int,
    tag: int,
    hash: int,
    i: int,
    blank: bool,
    comment: bool,
)
    requires
        0 <= start <= i <= text.len(),
        start == 0 || text[start - 1] == 0x0a,
        forall|j: int| start <= j < i ==> #[trigger] text[j] != 0x0a,
        blank ==> forall|j: int| start <= j < i ==> is_blank(#[trigger] text[j]),
        !blank ==> tag < i && is_first_word(text, start, tag),
        comment ==> !blank && tag <= hash < i && text[hash] == 0x23,
        !comment ==> forall|j: int| start <= j < i ==> #[trigger] text[j] != 0x23,
    ensures
        in_face_record(text, i) <==> !blank && !comment && is_face_tag(text[tag]),
{
    if in_face_record(text, i) {
        let (s, t) = choose|s: int, t: int|
            {
                &&& #[trigger] is_first_word(text, s, t)
                &&& is_face_tag(text[t])
                &&& t < i <= text.len()
                &&& forall|j: int| t <= j < i ==> #[trigger] text[j] != 0x0a && text[j] != 0x23
            };
        if s < start {
            assert(text[start - 1] == 0x0a);
            if start - 1 < t {
                assert(is_blank(text[start - 1]));
            }
        }
        if start < s {
            assert(text[s - 1] == 0x0a);
        }
        assert(s == start);
        if blank {
            assert(is_blank(text[t]));
        } else {
            if t < tag {
                assert(is_blank(text[t]));
            }
            if tag < t {
                assert(is_blank(text[tag]));
            }
            if comment {
                assert(text[hash] == 0x23);
            }
        }
    }
    if !blank && !comment && is_face_tag(text[tag]) {
        assert(is_first_word(text, start, tag));
    }
}

/// Whether the text is of a size that the parser takes.
#[verifier::rlimit(40)]
pub fn has_parsable_size(text: &[u8]) -> (fits: bool)
    ensures
        fits == parsable_size(text@),
{
    if text.len() > MAX_TEXT {
        return false;
    }
    // `blank` says that the line has held nothing but blanks so far, `faces`
    // that its first word begins with the tag of a record of faces or lines
    // and no comment has begun; `run` counts the digits since the last minus
    // sign of such a record, as long as nothing but digits has followed it
    let mut blank = true;
    let mut faces = false;
    let mut after_minus = false;
    let mut run: usize = 0;
    let mut i: usize = 0;
    let ghost mut start: int = 0;
    let ghost mut tag: int = 0;
    let ghost mut hash: int = 0;
    let ghost mut comment = false;
    while i < text.len()
        invariant
            i <= text@.len(),
            text@.len() <= MAX_TEXT,
            0 <= start <= i,
            start == 0 || text@[start - 1] == 0x0a,
            forall|j: int| start <= j < i ==> #[trigger] text@[j] != 0x0a,
            blank ==> forall|j: int| start <= j < i ==> is_blank(#[trigger] text@[j]),
            !blank ==> tag < i && is_first_word(text@, start, tag),
            comment ==> !blank && tag <= hash < i && text@[hash] == 0x23,
            !comment ==> forall|j: int| start <= j < i ==> #[trigger] text@[j] != 0x23,
            faces == (!blank && !comment && is_face_tag(text@[tag])),
            run < MAX_DIGITS,
            after_minus ==> run < i && text@[i - 1 - run] == 0x2d && in_face_record(
                text@,
                i - 1 - run,
            ) && digits_from(text@, i - run, run as int),
            !after_minus ==> run == 0,
            forall|j: int|
                #![trigger text@[j]]
                0 <= j < i && text@[j] == 0x2d && in_face_record(text@, j) && !(after_minus && j
                    == i - 1 - run) ==> !digits_from(text@, j + 1, MAX_DIGITS as int),
        decreases text@.len() - i,
    {
        let b = text[i];
        proof {
            lemma_face_record(text@, start, tag, hash, i as int, blank, comment);
            if after_minus && !(0x30 <= b && b <= 0x39) {
                let minus = i - 1 - run;
                assert(!is_digit(text@[i as int]));
                assert(!digits_from(text@, minus + 1, MAX_DIGITS as int));
            }
        }
        if after_minus && 0x30 <= b && b <= 0x39 {
            run += 1;
            if run >= MAX_DIGITS {
                proof {
                    let minus = i + 1 - run - 1;
                    assert(text@[minus] == 0x2d);
                    assert(digits_from(text@, minus + 1, MAX_DIGITS as int));
                }
                return false;
            }
        } else {
            after_minus = faces && b == 0x2d;
            run = 0;
        }
        if b == 0x0a {
            blank = true;
            faces = false;
            proof {
                start = i + 1;
                comment = false;
            }
        } else {
            if blank && !(b == 0x20 || b == 0x09 || b == 0x0d) {
                blank = false;
                faces = b == 0x66 || b == 0x6c;
                proof {
                    tag = i as int;
                }
            }
            if b == 0x23 {
                faces = false;
                proof {
                    hash = i as int;
                    comment = true;
                }
            }
        }
        i += 1;
    }
    proof {
        if after_minus {
            let minus = i - 1 - run;
            assert(!digits_from(text@, minus + 1, MAX_DIGITS as int));
        }
    }
    true
}

/// Whether the shape is a triangle whose corners are vertices of an object
/// with `vertices` vertices.
pub open spec fn is_mesh_triangle(face: Face, vertices: nat) -> bool {
    face matches Face::Triangle(a, b, c) && a < vertices && b < vertices && c < vertices
}

/// The triangles of a model from shape `s` of geometry `g` of object `o`
/// on, in the order of the model. Shapes that are no triangles, and
/// triangles that name a vertex that their object does not have, are left
/// out.
pub open spec fn triangles_from(
    shapes: Seq<Seq<Seq<Face>>>,
    vertices: Seq<nat>,
    o: int,
    g: int,
    s: int,
) -> Seq<Corners>
    decreases
            shapes.len() - o,
            (if 0 <= o < shapes.len() {
                shapes[o].len() - g
            } else {
                0
            }),
            (if 0 <= o < shapes.len() && 0 <= g < shapes[o].len() {
                shapes[o][g].len() - s
            } else {
                0
            }),
{
    if !(0 <= o < shapes.len() && o < vertices.len()) || g < 0 || s < 0 {
        Seq::empty()
    } else if g >= shapes[o].len() {
        triangles_from(shapes, vertices, o + 1, 0, 0)
    } else if s >= shapes[o][g].len() {
        triangles_from(shapes, vertices, o, g + 1, 0)
    } else if is_mesh_triangle(shapes[o][g][s], vertices[o]) {
        seq![
            Corners {
                object: o as usize,
                a: shapes[o][g][s]->Triangle_0,
                b: shapes[o][g][s]->Triangle_1,
                c: shapes[o][g][s]->Triangle_2,
            },
        ] + triangles_from(shapes, vertices, o, g, s + 1)
    } else {
        triangles_from(shapes, vertices, o, g, s + 1)
    }
}

/// A triangle mesh: a parsed model that may be shared.
pub struct WfObj {
    model: Arc<ObjSet>,
}

impl WfObj {
    /// The shapes of the model.
    pub closed spec fn shapes(&self) -> Seq<Seq<Seq<Face>>> {
        model_shapes(*self.model)
    }

    /// The number of vertices of each object of the model.
    pub closed spec fn vertices(&self) -> Seq<nat> {
        model_vertices(*self.model)
    }

    /// All triangles of the mesh, in the order of the model.
    pub open spec fn triangles(&self) -> Seq<Corners> {
        triangles_from(self.shapes(), self.vertices(), 0, 0, 0)
    }

    /// The mesh of a parsed model.
    pub fn new(model: Arc<ObjSet>) -> (obj: WfObj)
        ensures
            obj.shapes() == model_shapes(*model),
            obj.vertices() == model_vertices(*model),
    {
        WfObj { model }
    }

    /// The parsed model, for what is not read here: the coordinates of its
    /// vertices.
    pub fn model(&self) -> (model: &Arc<ObjSet>)
        ensures
            model_shapes(**model) == self.shapes(),
            model_vertices(**model) == self.vertices(),
    {
        &self.model
    }

    /// An iterator over the triangles of the mesh.
    pub fn iter(&self) -> (triangles: IterWfObj<'_>)
        ensures
            triangles.mesh() == *self,
            triangles.remaining() == self.triangles(),
    {
        IterWfObj { wfobj: self, oidx: 0, gidx: 0, sidx: 0 }
    }

    /// All triangles of the mesh, in the order of the model.
    pub fn triangulate(&self) -> (triangles: Vec<Corners>)
        ensures
            triangles@ == self.triangles(),
    {
        let mut walk = self.iter();
        let mut triangles: Vec<Corners> = Vec::new();
        loop
            invariant
                walk.mesh() == *self,
                triangles@ + walk.remaining() == self.triangles(),
            decreases walk.remaining().len(),
        {
            match walk.next() {
                Some(t) => {
                    proof {
                        let before = triangles@;
                        let rest = walk.remaining();
                        assert((before.push(t)) + rest =~= before + (seq![t] + rest));
                    }
                    triangles.push(t);
                },
                None => {
                    proof {
                        assert(triangles@ + walk.remaining() =~= triangles@);
                    }
                    return triangles;
                },
            }
        }
    }
}

/// Walks the triangles of a mesh: through the objects of the model, the
/// geometries of each object, and the shapes of each geometry.
pub struct IterWfObj<'a> {
    wfobj: &'a WfObj,
    oidx: usize,
    gidx: usize,
    sidx: usize,
}

impl<'a> IterWfObj<'a> {
    /// The mesh that is walked.
    pub closed spec fn mesh(&self) -> WfObj {
        *self.wfobj
    }

    /// The triangles that the walk has yet to hand out.
    pub closed spec fn remaining(&self) -> Seq<Corners> {
        triangles_from(
            self.wfobj.shapes(),
            self.wfobj.vertices(),
            self.oidx as int,
            self.gidx as int,
            self.sidx as int,
        )
    }

    /// The next triangle of the mesh, or `None` once all have been handed
    /// out.
    #[verifier::rlimit(40)]
    pub fn next(&mut self) -> (next: Option<Corners>)
        ensures
            final(self).mesh() == old(self).mesh(),
            match next {
                Some(t) => old(self).remaining().len() > 0 && t == old(self).remaining()[0]
                    && final(self).remaining() == old(self).remaining().drop_first(),
                None => old(self).remaining().len() == 0 && final(self).remaining().len() == 0,
            },
    {
        let set: &ObjSet = &*self.wfobj.model;
        let objects = object_count(set);
        let ghost shapes = self.wfobj.shapes();
        let ghost vertices = self.wfobj.vertices();
        let ghost start = self.remaining();
        loop
            invariant
                self.wfobj == old(self).wfobj,
                *set == *self.wfobj.model,
                shapes == model_shapes(*set),
                vertices == model_vertices(*set),
                objects == shapes.len(),
                objects == vertices.len(),
                self.remaining() == start,
                start == old(self).remaining(),
            decreases
                    objects - self.oidx,
                    (if self.oidx < objects {
                        shapes[self.oidx as int].len() - self.gidx
                    } else {
                        0
                    }),
                    (if self.oidx < objects && self.gidx < shapes[self.oidx as int].len() {
                        shapes[self.oidx as int][self.gidx as int].len() - self.sidx
                    } else {
                        0
                    }),
        {
            if self.oidx >= objects {
                return None;
            }
            if self.gidx >= geometry_count(set, self.oidx) {
                self.oidx += 1;
                self.gidx = 0;
                self.sidx = 0;
            } else if self.sidx >= shape_count(set, self.oidx, self.gidx) {
                self.gidx += 1;
                self.sidx = 0;
            } else {
                let face = shape_at(set, self.oidx, self.gidx, self.sidx);
                let object = self.oidx;
                self.sidx += 1;
                match face {
                    Face::Triangle(a, b, c) => {
                        let count = vertex_count(set, object);
                        if a < count && b < count && c < count {
                            proof {
                                assert(start =~= seq![Corners { object, a, b, c }]
                                    + self.remaining());
                                assert(start.drop_first() =~= self.remaining());
                            }
                            return Some(Corners { object, a, b, c });
                        }
                    },
                    Face::Other => {},
                }
            }
        }
    }
}

/// What becomes of the parser's answer: the mesh of the model, or the
/// parser's error with its line and its words.
pub fn from_parsed(parsed: Result<ObjSet, ParseError>) -> (mesh: Result<WfObj, ObjError>)
    ensures
        match parsed {
            Ok(set) => mesh matches Ok(obj) && obj.shapes() == model_shapes(set) && obj.vertices()
                == model_vertices(set),
            Err(_) => mesh matches Err(ObjError::Parse { .. }),
        },
{
    match parsed {
        Ok(set) => Ok(WfObj::new(Arc::new(set))),
        Err(error) => {
            let (line_number, message) = describe(error);
            Err(ObjError::Parse { line_number, message })
        },
    }
}

/// The mesh that a Wavefront OBJ text describes. A text that is not of a
/// size that the parser takes is refused as oversized; any other text goes
/// to the parser, whose answer decides: the mesh has the shapes and the
/// vertex counts of the model that the parser makes of the text, and a text
/// of which it makes none is refused with the parser's error.
pub fn new_wavefront_obj(content: &str) -> (mesh: Result<WfObj, ObjError>)
    ensures
        !parsable_size(content.spec_bytes()) <==> mesh matches Err(ObjError::Oversized),
        parsable_size(content.spec_bytes()) ==> match mesh {
            Ok(obj) => parsed_model(content.spec_bytes()) == Some((obj.shapes(), obj.vertices())),
            Err(_) => parsed_model(content.spec_bytes()) is None,
        },
{
    if !has_parsable_size(content.as_bytes()) {
        return Err(ObjError::Oversized);
    }
    from_parsed(parse(content))
}

} // verus!
