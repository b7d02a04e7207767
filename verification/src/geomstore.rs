//! Geometry store: meshes as binary glTF, keyed by content hash.
//!
//! Authored geometry is triangulated elsewhere; a mesh is encoded here as glTF 2.0
//! (GLB), once for each content hash. The store is derived and only reads the
//! index.

use crate::hydrate::{share, LoadError};
use crate::json::{
    array_at, is_document, json_array_at, json_document, json_number_at, json_with_number,
    number_at, plain, unpadded, with_number,
};
use crate::lsg::{GeomRef, GeomRefView, Lsg, LsgView};
use crate::model::{group_models, opt_view};
use crate::table::ascending;
use crate::text::{cat, cat3, decimal, decimal_of, digit_char};
use std::sync::Arc;
use vstd::hash_map::StringHashMap;
use vstd::prelude::*;
use vstd::string::*;
use vstd::utf8::encode_utf8;

verus! {

/// Three single-precision numbers, as their bit patterns.
#[derive(Debug, Clone, Copy, PartialEq, Eq, Structural)]
pub struct Vec3 {
    pub x: u32,
    pub y: u32,
    pub z: u32,
}

/// A triangulated mesh. Positions and normals run in parallel, and `indices` list
/// triangles.
#[derive(Debug, Clone, PartialEq)]
pub struct Mesh {
    pub positions: Vec<Vec3>,
    pub normals: Vec<Vec3>,
    pub indices: Vec<u32>,
}

pub struct MeshView {
    pub positions: Seq<Vec3>,
    pub normals: Seq<Vec3>,
    pub indices: Seq<u32>,
}

impl View for Mesh {
    type V = MeshView;

    open spec fn view(&self) -> MeshView {
        MeshView {
            positions: self.positions@,
            normals: self.normals@,
            indices: self.indices@,
        }
    }
}

impl Mesh {
    pub fn vertex_count(&self) -> (n: usize)
        ensures
            n == self@.positions.len(),
    {
        self.positions.len()
    }

    pub fn is_empty(&self) -> (b: bool)
        ensures
            b == (self@.positions.len() == 0 || self@.indices.len() == 0),
    {
        self.positions.len() == 0 || self.indices.len() == 0
    }
}

// ---------------------------------------------------------------------------
// Words.

/// One of the four bytes of a word, the least significant first.
pub open spec fn byte_of(n: u32, k: int) -> u8 {
    if k == 0 {
        (n % 256) as u8
    } else if k == 1 {
        (n / 256 % 256) as u8
    } else if k == 2 {
        (n / 65536 % 256) as u8
    } else {
        (n / 16777216) as u8
    }
}

/// Words as bytes, the least significant byte first.
pub open spec fn word_bytes(words: Seq<u32>) -> Seq<u8> {
    Seq::new(4 * words.len(), |j: int| byte_of(words[j / 4], j % 4))
}

/// The word that starts at `off`.
pub open spec fn word_at(b: Seq<u8>, off: int) -> u32 {
    (b[off] + 256 * b[off + 1] + 65536 * b[off + 2] + 16777216 * b[off + 3]) as u32
}

/// A word comes back from its bytes.
proof fn lemma_word(b: Seq<u8>, off: int, n: u32)
    requires
        0 <= off,
        off + 4 <= b.len(),
        b[off] == byte_of(n, 0),
        b[off + 1] == byte_of(n, 1),
        b[off + 2] == byte_of(n, 2),
        b[off + 3] == byte_of(n, 3),
    ensures
        word_at(b, off) == n,
{
    assert(n / 65536 == n / 256 / 256);
    assert(n / 16777216 == n / 256 / 256 / 256);
    assert(n == 256 * (n / 256) + n % 256);
    assert(n / 256 == 256 * (n / 65536) + n / 256 % 256);
    assert(n / 65536 == 256 * (n / 16777216) + n / 65536 % 256);
    assert(n / 16777216 < 256);
}

proof fn lemma_word_bytes(words: Seq<u32>, k: int)
    requires
        0 <= k < words.len(),
    ensures
        word_at(word_bytes(words), 4 * k) == words[k],
{
    let b = word_bytes(words);
    assert((4 * k) / 4 == k && (4 * k) % 4 == 0);
    assert((4 * k + 1) / 4 == k && (4 * k + 1) % 4 == 1);
    assert((4 * k + 2) / 4 == k && (4 * k + 2) % 4 == 2);
    assert((4 * k + 3) / 4 == k && (4 * k + 3) % 4 == 3);
    lemma_word(b, 4 * k, words[k]);
}

fn push_word(v: &mut Vec<u8>, n: u32)
    ensures
        final(v)@ == old(v)@ + word_bytes(seq![n]),
{
    let ghost v0 = v@;
    v.push((n % 256) as u8);
    v.push((n / 256 % 256) as u8);
    v.push((n / 65536 % 256) as u8);
    v.push((n / 16777216) as u8);
    proof {
        let w = word_bytes(seq![n]);
        assert(w.len() == 4);
        assert(v@ =~= v0 + w);
    }
}

proof fn lemma_words_push(words: Seq<u32>, n: u32)
    ensures
        word_bytes(words.push(n)) == word_bytes(words) + word_bytes(seq![n]),
{
    let a = word_bytes(words.push(n));
    let b = word_bytes(words) + word_bytes(seq![n]);
    assert forall|j: int| 0 <= j < a.len() implies a[j] == b[j] by {
        if j < 4 * words.len() {
            assert(j / 4 < words.len());
            assert(words.push(n)[j / 4] == words[j / 4]);
        } else {
            assert(j / 4 == words.len());
            assert((j - 4 * words.len()) / 4 == 0);
            assert((j - 4 * words.len()) % 4 == j % 4);
        }
    }
    assert(a =~= b);
}

/// Fills up to a multiple of four.
pub open spec fn padding(n: int) -> int {
    if n % 4 == 0 {
        0
    } else {
        4 - n % 4
    }
}

pub open spec fn padded(b: Seq<u8>, fill: u8) -> Seq<u8> {
    b + Seq::new(padding(b.len() as int) as nat, |i: int| fill)
}

/// Pads bytes to a multiple of four.
pub fn pad_to_4(v: &mut Vec<u8>, fill: u8)
    ensures
        final(v)@ == padded(old(v)@, fill),
{
    let ghost v0 = v@;
    let mut k: usize = 0;
    proof {
        assert(v@ =~= v0 + Seq::new(0, |i: int| fill));
    }
    while v.len() % 4 != 0
        invariant
            0 <= k <= 3,
            v@ == v0 + Seq::new(k as nat, |i: int| fill),
            k <= padding(v0.len() as int),
        decreases 4 - k,
    {
        v.push(fill);
        k = k + 1;
        proof {
            assert(v@ =~= v0 + Seq::new(k as nat, |i: int| fill));
        }
    }
}

// ---------------------------------------------------------------------------
// Encoding.

/// The numbers of vectors, one after the other.
pub open spec fn vec_words(vs: Seq<Vec3>) -> Seq<u32> {
    Seq::new(
        3 * vs.len(),
        |j: int|
            if j % 3 == 0 {
                vs[j / 3].x
            } else if j % 3 == 1 {
                vs[j / 3].y
            } else {
                vs[j / 3].z
            },
    )
}

/// The words of a mesh: positions, normals, indices.
pub open spec fn mesh_words(m: MeshView) -> Seq<u32> {
    vec_words(m.positions) + vec_words(m.normals) + m.indices
}

/// A place in the first primitive of the first mesh of a document.
pub open spec fn primitive_place(field: Seq<char>) -> Seq<char> {
    "/meshes/0/primitives/0"@ + field
}

/// A place in an accessor of a document.
pub open spec fn accessor_place(i: nat, field: Seq<char>) -> Seq<char> {
    "/accessors/"@ + decimal_of(i) + field
}

/// A place in a buffer view of a document.
pub open spec fn view_place(i: nat, field: Seq<char>) -> Seq<char> {
    "/bufferViews/"@ + decimal_of(i) + field
}

/// The places of the numbers of a document that say where the parts of a mesh lie.
pub open spec fn layout_places() -> Seq<Seq<char>> {
    seq![
        primitive_place("/attributes/POSITION"@),
        primitive_place("/attributes/NORMAL"@),
        primitive_place("/indices"@),
        accessor_place(0, "/bufferView"@),
        accessor_place(0, "/count"@),
        accessor_place(1, "/bufferView"@),
        accessor_place(1, "/count"@),
        accessor_place(2, "/bufferView"@),
        accessor_place(2, "/count"@),
        view_place(0, "/byteOffset"@),
        view_place(0, "/byteLength"@),
        view_place(1, "/byteOffset"@),
        view_place(1, "/byteLength"@),
        view_place(2, "/byteOffset"@),
        view_place(2, "/byteLength"@),
        "/buffers/0/byteLength"@,
    ]
}

/// The places and values of the numbers of a document that say where the parts of
/// a mesh lie.
pub open spec fn layout_numbers(m: MeshView) -> Seq<(Seq<char>, u64)> {
    let n = m.positions.len();
    seq![
        (primitive_place("/attributes/POSITION"@), 0u64),
        (primitive_place("/attributes/NORMAL"@), 1u64),
        (primitive_place("/indices"@), 2u64),
        (accessor_place(0, "/bufferView"@), 0u64),
        (accessor_place(0, "/count"@), n as u64),
        (accessor_place(1, "/bufferView"@), 1u64),
        (accessor_place(1, "/count"@), n as u64),
        (accessor_place(2, "/bufferView"@), 2u64),
        (accessor_place(2, "/count"@), m.indices.len() as u64),
        (view_place(0, "/byteOffset"@), 0u64),
        (view_place(0, "/byteLength"@), (12 * n) as u64),
        (view_place(1, "/byteOffset"@), (12 * n) as u64),
        (view_place(1, "/byteLength"@), (12 * n) as u64),
        (view_place(2, "/byteOffset"@), (24 * n) as u64),
        (view_place(2, "/byteLength"@), (4 * m.indices.len()) as u64),
        ("/buffers/0/byteLength"@, (4 * mesh_words(m).len()) as u64),
    ]
}

/// The places and values of the numbers of a document that are the same for every
/// mesh: the types of the components, the topology, what the buffer views are for,
/// and what leads from the scene to the mesh.
pub open spec fn type_numbers() -> Seq<(Seq<char>, u64)> {
    seq![
        (accessor_place(0, "/componentType"@), 5126u64),
        (accessor_place(1, "/componentType"@), 5126u64),
        (accessor_place(2, "/componentType"@), 5125u64),
        (primitive_place("/mode"@), 4u64),
        (view_place(0, "/target"@), 34962u64),
        (view_place(1, "/target"@), 34962u64),
        (view_place(2, "/target"@), 34963u64),
        (view_place(0, "/buffer"@), 0u64),
        (view_place(1, "/buffer"@), 0u64),
        (view_place(2, "/buffer"@), 0u64),
        ("/scene"@, 0u64),
        ("/scenes/0/nodes/0"@, 0u64),
        ("/nodes/0/mesh"@, 0u64),
    ]
}

/// There is a number at each of the places.
pub open spec fn ready(doc: Seq<u8>, numbers: Seq<(Seq<char>, u64)>) -> bool {
    forall|i: int|
        0 <= i < numbers.len() ==> json_number_at(doc, (#[trigger] numbers[i]).0) is Some
}

/// The numbers that are written into a template for a mesh: where the parts lie,
/// and, where the template has room for them, those that are the same for every
/// mesh.
pub open spec fn mesh_numbers(template: Seq<u8>, m: MeshView) -> Seq<(Seq<char>, u64)> {
    if ready(template, type_numbers()) {
        layout_numbers(m) + type_numbers()
    } else {
        layout_numbers(m)
    }
}

/// A document with numbers written into it, one after the other.
pub open spec fn with_numbers(doc: Seq<u8>, numbers: Seq<(Seq<char>, u64)>) -> Option<Seq<u8>>
    decreases numbers.len(),
{
    if numbers.len() == 0 {
        Some(doc)
    } else {
        match with_numbers(doc, numbers.drop_last()) {
            Some(d) => json_with_number(d, numbers.last().0, numbers.last().1),
            None => None,
        }
    }
}

/// The glTF document of a mesh, before its numbers are written: one buffer, one
/// mesh with positions, normals and indices. The bounds of the positions are
/// handed in as JSON arrays.
pub open spec fn skeleton(min_json: Seq<char>, max_json: Seq<char>) -> Seq<char> {
    skeleton_head() + min_json + (",\"max\":"@ + max_json + skeleton_tail())
}

pub open spec fn skeleton_head() -> Seq<char> {
    "{\"asset\":{\"version\":\"2.0\",\"generator\":\"vectorflow-sgs geomstore\"},\"scene\":0,\"scenes\":[{\"nodes\":[0]}],\"nodes\":[{\"mesh\":0}],\"meshes\":[{\"primitives\":[{\"attributes\":{\"POSITION\":0,\"NORMAL\":0},\"indices\":0,\"mode\":4}]}],\"buffers\":[{\"byteLength\":0}],\"bufferViews\":[{\"buffer\":0,\"byteOffset\":0,\"byteLength\":0,\"target\":34962},{\"buffer\":0,\"byteOffset\":0,\"byteLength\":0,\"target\":34962},{\"buffer\":0,\"byteOffset\":0,\"byteLength\":0,\"target\":34963}],\"accessors\":[{\"bufferView\":0,\"componentType\":5126,\"count\":0,\"type\":\"VEC3\",\"min\":"@
}

pub open spec fn skeleton_tail() -> Seq<char> {
    "},{\"bufferView\":0,\"componentType\":5126,\"count\":0,\"type\":\"VEC3\"},{\"bufferView\":0,\"componentType\":5125,\"count\":0,\"type\":\"SCALAR\"}]}"@
}

/// A document has an array for each list that a mesh needs.
pub open spec fn has_lists(doc: Seq<u8>) -> bool {
    &&& json_array_at(doc, "/meshes"@) is Some
    &&& json_array_at(doc, "/meshes/0/primitives"@) is Some
    &&& json_array_at(doc, "/accessors"@) == Some(3usize)
    &&& json_array_at(doc, "/bufferViews"@) == Some(3usize)
}

/// A document has the lists that a mesh needs, and a number at each place that
/// says where the parts of a mesh lie.
pub open spec fn is_template(doc: Seq<u8>) -> bool {
    &&& has_lists(doc)
    &&& forall|i: int|
        0 <= i < layout_places().len() ==> json_number_at(doc, #[trigger] layout_places()[i])
            is Some
}

/// A document describes a mesh: it has the lists, and each of the numbers stands
/// at its place.
pub open spec fn describes(doc: Seq<u8>, numbers: Seq<(Seq<char>, u64)>) -> bool {
    &&& json_document(doc)
    &&& has_lists(doc)
    &&& forall|i: int|
        0 <= i < numbers.len() ==> json_number_at(doc, (#[trigger] numbers[i]).0) == Some(
            numbers[i].1,
        )
}

/// A GLB file: a header, a JSON chunk and a binary chunk.
pub open spec fn glb_of(json: Seq<u8>, bin: Seq<u8>) -> Seq<u8> {
    word_bytes(
        seq![
            0x4654_6c67u32,
            2u32,
            (28 + json.len() + bin.len()) as u32,
            json.len() as u32,
            0x4e4f_534au32,
        ],
    ) + json + (word_bytes(seq![bin.len() as u32, 0x004e_4942u32]) + bin)
}

/// The GLB file of a mesh: the numbers are written into the document, which is
/// padded with blanks. There is no file where the document is no template for
/// meshes, because the bounds handed in are no JSON values.
pub open spec fn encoded(m: MeshView, min_json: Seq<char>, max_json: Seq<char>) -> Option<Seq<u8>> {
    let template = encode_utf8(skeleton(min_json, max_json));
    if !is_template(template) {
        None
    } else {
        match with_numbers(template, mesh_numbers(template, m)) {
            Some(doc) => Some(glb_of(padded(doc, 0x20), padded(word_bytes(mesh_words(m)), 0))),
            None => None,
        }
    }
}

spec fn fields_view(s: Seq<(String, u64)>) -> Seq<(Seq<char>, u64)> {
    Seq::new(s.len(), |i: int| (s[i].0@, s[i].1))
}

fn push_vecs(bin: &mut Vec<u8>, vs: &Vec<Vec3>, Ghost(words): Ghost<Seq<u32>>)
    requires
        old(bin)@ == word_bytes(words),
    ensures
        final(bin)@ == word_bytes(words + vec_words(vs@)),
{
    let ghost all = vec_words(vs@);
    let mut i: usize = 0;
    proof {
        assert(words + all.take(0) =~= words);
    }
    while i < vs.len()
        invariant
            i <= vs@.len(),
            all == vec_words(vs@),
            bin@ == word_bytes(words + all.take(3 * i)),
        decreases vs@.len() - i,
    {
        let v = vs[i];
        let ghost w0 = words + all.take(3 * i);
        push_word(bin, v.x);
        push_word(bin, v.y);
        push_word(bin, v.z);
        proof {
            lemma_words_push(w0, v.x);
            lemma_words_push(w0.push(v.x), v.y);
            lemma_words_push(w0.push(v.x).push(v.y), v.z);
            assert((3 * i) % 3 == 0 && (3 * i) / 3 == i);
            assert((3 * i + 1) % 3 == 1 && (3 * i + 1) / 3 == i);
            assert((3 * i + 2) % 3 == 2 && (3 * i + 2) / 3 == i);
            assert(words + all.take(3 * (i + 1)) =~= w0.push(v.x).push(v.y).push(v.z));
        }
        i = i + 1;
    }
    proof {
        assert(all.take(3 * i) =~= all);
    }
}

/// The binary part of a mesh.
fn mesh_bytes(mesh: &Mesh) -> (bin: Vec<u8>)
    ensures
        bin@ == word_bytes(mesh_words(mesh@)),
{
    let mut bin: Vec<u8> = Vec::new();
    proof {
        assert(bin@ =~= word_bytes(Seq::empty()));
        assert(Seq::<u32>::empty() + vec_words(mesh@.positions) =~= vec_words(mesh@.positions));
    }
    push_vecs(&mut bin, &mesh.positions, Ghost(Seq::empty()));
    push_vecs(&mut bin, &mesh.normals, Ghost(vec_words(mesh@.positions)));
    let ghost w0 = vec_words(mesh@.positions) + vec_words(mesh@.normals);
    let mut i: usize = 0;
    proof {
        assert(w0 + mesh@.indices.take(0) =~= w0);
    }
    while i < mesh.indices.len()
        invariant
            i <= mesh.indices@.len(),
            bin@ == word_bytes(w0 + mesh@.indices.take(i as int)),
        decreases mesh.indices@.len() - i,
    {
        push_word(&mut bin, mesh.indices[i]);
        proof {
            lemma_words_push(w0 + mesh@.indices.take(i as int), mesh@.indices[i as int]);
            assert(w0 + mesh@.indices.take(i + 1) =~= (w0 + mesh@.indices.take(i as int)).push(
                mesh@.indices[i as int],
            ));
        }
        i = i + 1;
    }
    proof {
        assert(mesh@.indices.take(i as int) =~= mesh@.indices);
    }
    bin
}

fn primitive_pointer(field: &str) -> (s: String)
    ensures
        s@ == primitive_place(field@),
{
    cat("/meshes/0/primitives/0", field)
}

fn accessor_pointer(i: u64, field: &str) -> (s: String)
    ensures
        s@ == accessor_place(i as nat, field@),
{
    cat3("/accessors/", decimal(i).as_str(), field)
}

fn view_pointer(i: u64, field: &str) -> (s: String)
    ensures
        s@ == view_place(i as nat, field@),
{
    cat3("/bufferViews/", decimal(i).as_str(), field)
}

/// The sizes of a mesh fit the machine.
pub open spec fn fits(m: MeshView) -> bool {
    24 * m.positions.len() + 12 * m.normals.len() + 4 * m.indices.len() <= usize::MAX
}

fn layout_fields(mesh: &Mesh) -> (r: Vec<(String, u64)>)
    requires
        fits(mesh@),
    ensures
        fields_view(r@) == layout_numbers(mesh@),
{
    let n: usize = mesh.positions.len();
    let words: usize = 3 * n + 3 * mesh.normals.len() + mesh.indices.len();
    let mut r: Vec<(String, u64)> = Vec::new();
    r.push((primitive_pointer("/attributes/POSITION"), 0));
    r.push((primitive_pointer("/attributes/NORMAL"), 1));
    r.push((primitive_pointer("/indices"), 2));
    r.push((accessor_pointer(0, "/bufferView"), 0));
    r.push((accessor_pointer(0, "/count"), n as u64));
    r.push((accessor_pointer(1, "/bufferView"), 1));
    r.push((accessor_pointer(1, "/count"), n as u64));
    r.push((accessor_pointer(2, "/bufferView"), 2));
    r.push((accessor_pointer(2, "/count"), mesh.indices.len() as u64));
    r.push((view_pointer(0, "/byteOffset"), 0));
    r.push((view_pointer(0, "/byteLength"), (12 * n) as u64));
    r.push((view_pointer(1, "/byteOffset"), (12 * n) as u64));
    r.push((view_pointer(1, "/byteLength"), (12 * n) as u64));
    r.push((view_pointer(2, "/byteOffset"), (24 * n) as u64));
    r.push((view_pointer(2, "/byteLength"), (4 * mesh.indices.len()) as u64));
    r.push(("/buffers/0/byteLength".to_owned(), (4 * words) as u64));
    proof {
        assert(fields_view(r@) =~= layout_numbers(mesh@));
    }
    r
}

/// Appends the numbers that are the same for every mesh.
fn push_types(r: &mut Vec<(String, u64)>)
    ensures
        fields_view(final(r)@) == fields_view(old(r)@) + type_numbers(),
{
    r.push((accessor_pointer(0, "/componentType"), 5126));
    r.push((accessor_pointer(1, "/componentType"), 5126));
    r.push((accessor_pointer(2, "/componentType"), 5125));
    r.push((primitive_pointer("/mode"), 4));
    r.push((view_pointer(0, "/target"), 34962));
    r.push((view_pointer(1, "/target"), 34962));
    r.push((view_pointer(2, "/target"), 34963));
    r.push((view_pointer(0, "/buffer"), 0));
    r.push((view_pointer(1, "/buffer"), 0));
    r.push((view_pointer(2, "/buffer"), 0));
    r.push(("/scene".to_owned(), 0));
    r.push(("/scenes/0/nodes/0".to_owned(), 0));
    r.push(("/nodes/0/mesh".to_owned(), 0));
    proof {
        assert(fields_view(r@) =~= fields_view(old(r)@) + type_numbers());
    }
}

/// The places of numbers are plain, and no two are the same.
spec fn apart(numbers: Seq<(Seq<char>, u64)>) -> bool {
    &&& forall|i: int| 0 <= i < numbers.len() ==> plain((#[trigger] numbers[i]).0)
    &&& forall|i: int, j: int|
        0 <= i < j < numbers.len() ==> (#[trigger] numbers[i]).0 != (#[trigger] numbers[j]).0
}

/// One document has the arrays of another.
spec fn same_arrays(a: Seq<u8>, b: Seq<u8>) -> bool {
    forall|p: Seq<char>| plain(p) ==> #[trigger] json_array_at(b, p) == json_array_at(a, p)
}

/// Writes numbers into a document. Where a number stands at each of the places, and
/// these are apart, all are written and can be read back.
fn write_numbers(doc: &Vec<u8>, fields: &Vec<(String, u64)>) -> (r: Option<Vec<u8>>)
    ensures
        match r {
            Some(out) => with_numbers(doc@, fields_view(fields@)) == Some(out@),
            None => with_numbers(doc@, fields_view(fields@)) is None,
        },
        fields@.len() > 0 && apart(fields_view(fields@)) && ready(doc@, fields_view(fields@))
            ==> r is Some && {
            let out = r->0@;
            let all = fields_view(fields@);
            &&& json_document(out)
            &&& unpadded(out) == out
            &&& same_arrays(doc@, out)
            &&& forall|j: int|
                0 <= j < all.len() ==> json_number_at(out, (#[trigger] all[j]).0) == Some(all[j].1)
        },
{
    let ghost all = fields_view(fields@);
    let ghost good = apart(all) && ready(doc@, all);
    let mut cur: Vec<u8> = Vec::new();
    append_bytes(&mut cur, doc);
    let mut i: usize = 0;
    proof {
        assert(cur@ =~= doc@);
        assert(with_numbers(doc@, all.take(0)) == Some(doc@));
    }
    while i < fields.len()
        invariant
            i <= fields@.len(),
            all == fields_view(fields@),
            good == (apart(all) && ready(doc@, all)),
            with_numbers(doc@, all.take(i as int)) == Some(cur@),
            good ==> ready(cur@, all) && same_arrays(doc@, cur@),
            good ==> forall|j: int|
                0 <= j < i ==> json_number_at(cur@, (#[trigger] all[j]).0) == Some(all[j].1),
            good && i > 0 ==> json_document(cur@) && unpadded(cur@) == cur@,
        decreases fields@.len() - i,
    {
        let ghost before = cur@;
        proof {
            assert(all.take(i + 1).drop_last() =~= all.take(i as int));
            assert(all.take(i + 1).last() == all[i as int]);
            if good {
                assert(json_number_at(before, all[i as int].0) is Some);
                assert(plain(all[i as int].0));
            }
        }
        match with_number(&cur, fields[i].0.as_str(), fields[i].1) {
            Some(next) => {
                cur = next;
            },
            None => {
                proof {
                    lemma_with_numbers_none(doc@, all, i + 1);
                }
                return None;
            },
        }
        proof {
            if good {
                assert forall|j: int| 0 <= j < all.len() && j != i implies json_number_at(
                    cur@,
                    (#[trigger] all[j]).0,
                ) == json_number_at(before, all[j].0) by {
                    assert(plain(all[j].0));
                    if j < i {
                        assert(all[j].0 != all[i as int].0);
                    } else {
                        assert(all[i as int].0 != all[j].0);
                    }
                }
                assert forall|p: Seq<char>| plain(p) implies #[trigger] json_array_at(cur@, p)
                    == json_array_at(doc@, p) by {
                    assert(json_array_at(cur@, p) == json_array_at(before, p));
                }
            }
        }
        i = i + 1;
    }
    proof {
        assert(all.take(i as int) =~= all);
    }
    Some(cur)
}

proof fn lemma_with_numbers_none(doc: Seq<u8>, numbers: Seq<(Seq<char>, u64)>, i: int)
    requires
        0 <= i <= numbers.len(),
        with_numbers(doc, numbers.take(i)) is None,
    ensures
        with_numbers(doc, numbers) is None,
    decreases numbers.len(),
{
    if i == numbers.len() {
        assert(numbers.take(i) =~= numbers);
    } else {
        assert(numbers.drop_last().take(i) =~= numbers.take(i));
        lemma_with_numbers_none(doc, numbers.drop_last(), i);
    }
}

fn append_bytes(out: &mut Vec<u8>, more: &Vec<u8>)
    ensures
        final(out)@ == old(out)@ + more@,
{
    out.extend_from_slice(more);
    proof {
        assert(out@ =~= old(out)@ + more@);
    }
}

/// A length as the word that a GLB file holds of it.
#[verifier::truncate]
fn length_word(n: u128) -> (w: u32)
    ensures
        w == n as u32,
{
    n as u32
}

/// Puts the chunks of a GLB file together.
pub fn frame_glb(json: &Vec<u8>, bin: &Vec<u8>) -> (out: Vec<u8>)
    ensures
        out@ == glb_of(json@, bin@),
{
    let total: u128 = 28 + json.len() as u128 + bin.len() as u128;
    let mut out: Vec<u8> = Vec::new();
    proof {
        assert(out@ =~= word_bytes(Seq::empty()));
    }
    let ghost w0 = Seq::<u32>::empty();
    push_word(&mut out, 0x4654_6c67);
    push_word(&mut out, 2);
    push_word(&mut out, length_word(total));
    push_word(&mut out, length_word(json.len() as u128));
    push_word(&mut out, 0x4e4f_534a);
    proof {
        let a = w0.push(0x4654_6c67u32);
        let b = a.push(2u32);
        let c = b.push((28 + json@.len() + bin@.len()) as u32);
        let d = c.push(json@.len() as u32);
        lemma_words_push(w0, 0x4654_6c67u32);
        lemma_words_push(a, 2u32);
        lemma_words_push(b, (28 + json@.len() + bin@.len()) as u32);
        lemma_words_push(c, json@.len() as u32);
        lemma_words_push(d, 0x4e4f_534au32);
        assert(d.push(0x4e4f_534au32) =~= seq![
            0x4654_6c67u32,
            2u32,
            (28 + json@.len() + bin@.len()) as u32,
            json@.len() as u32,
            0x4e4f_534au32,
        ]);
    }
    append_bytes(&mut out, json);
    let mut tail: Vec<u8> = Vec::new();
    proof {
        assert(tail@ =~= word_bytes(Seq::empty()));
    }
    push_word(&mut tail, length_word(bin.len() as u128));
    push_word(&mut tail, 0x004e_4942);
    proof {
        let a = w0.push(bin@.len() as u32);
        lemma_words_push(w0, bin@.len() as u32);
        lemma_words_push(a, 0x004e_4942u32);
        assert(a.push(0x004e_4942u32) =~= seq![bin@.len() as u32, 0x004e_4942u32]);
    }
    append_bytes(&mut tail, bin);
    append_bytes(&mut out, &tail);
    out
}

fn skeleton_start() -> (s: &'static str)
    ensures
        s@ == skeleton_head(),
{
    "{\"asset\":{\"version\":\"2.0\",\"generator\":\"vectorflow-sgs geomstore\"},\"scene\":0,\"scenes\":[{\"nodes\":[0]}],\"nodes\":[{\"mesh\":0}],\"meshes\":[{\"primitives\":[{\"attributes\":{\"POSITION\":0,\"NORMAL\":0},\"indices\":0,\"mode\":4}]}],\"buffers\":[{\"byteLength\":0}],\"bufferViews\":[{\"buffer\":0,\"byteOffset\":0,\"byteLength\":0,\"target\":34962},{\"buffer\":0,\"byteOffset\":0,\"byteLength\":0,\"target\":34962},{\"buffer\":0,\"byteOffset\":0,\"byteLength\":0,\"target\":34963}],\"accessors\":[{\"bufferView\":0,\"componentType\":5126,\"count\":0,\"type\":\"VEC3\",\"min\":"
}

fn skeleton_end() -> (s: &'static str)
    ensures
        s@ == skeleton_tail(),
{
    "},{\"bufferView\":0,\"componentType\":5126,\"count\":0,\"type\":\"VEC3\"},{\"bufferView\":0,\"componentType\":5125,\"count\":0,\"type\":\"SCALAR\"}]}"
}

/// Is there a number at each of the places?
fn has_numbers(doc: &Vec<u8>, fields: &Vec<(String, u64)>) -> (b: bool)
    ensures
        b == ready(doc@, fields_view(fields@)),
{
    let ghost all = fields_view(fields@);
    let mut i: usize = 0;
    while i < fields.len()
        invariant
            i <= fields@.len(),
            all == fields_view(fields@),
            forall|j: int| 0 <= j < i ==> json_number_at(doc@, (#[trigger] all[j]).0) is Some,
        decreases fields@.len() - i,
    {
        if number_at(doc, fields[i].0.as_str()).is_none() {
            proof {
                assert(json_number_at(doc@, all[i as int].0) is None);
            }
            return false;
        }
        i = i + 1;
    }
    true
}

/// Is the document a template for meshes? `fields` has the places of its numbers.
fn is_mesh_template(doc: &Vec<u8>, fields: &Vec<(String, u64)>) -> (b: bool)
    requires
        exists|m: MeshView| fields_view(fields@) == #[trigger] layout_numbers(m),
    ensures
        b == is_template(doc@),
{
    proof {
        let m = choose|m: MeshView| fields_view(fields@) == #[trigger] layout_numbers(m);
        if is_template(doc@) {
            lemma_template_ready(doc@, m);
        }
        if ready(doc@, layout_numbers(m)) {
            let numbers = layout_numbers(m);
            assert forall|i: int| 0 <= i < layout_places().len() implies json_number_at(
                doc@,
                #[trigger] layout_places()[i],
            ) is Some by {
                assert(numbers[i].0 == layout_places()[i]);
            }
        }
    }
    array_at(doc, "/meshes").is_some() && array_at(doc, "/meshes/0/primitives").is_some()
        && array_at(doc, "/accessors") == Some(3usize) && array_at(doc, "/bufferViews")
        == Some(3usize) && has_numbers(doc, fields)
}

/// A glTF document says what the numbers of a mesh of triangles are: positions and
/// normals are floats of four bytes, indices unsigned integers of four bytes, three
/// indices are a triangle, and the scene shows the mesh.
pub open spec fn tells_types(doc: Seq<u8>) -> bool {
    &&& json_number_at(doc, "/accessors/0/componentType"@) == Some(5126u64)
    &&& json_number_at(doc, "/accessors/1/componentType"@) == Some(5126u64)
    &&& json_number_at(doc, "/accessors/2/componentType"@) == Some(5125u64)
    &&& json_number_at(doc, "/meshes/0/primitives/0/mode"@) == Some(4u64)
    &&& json_number_at(doc, "/bufferViews/0/target"@) == Some(34962u64)
    &&& json_number_at(doc, "/bufferViews/1/target"@) == Some(34962u64)
    &&& json_number_at(doc, "/bufferViews/2/target"@) == Some(34963u64)
    &&& json_number_at(doc, "/bufferViews/0/buffer"@) == Some(0u64)
    &&& json_number_at(doc, "/bufferViews/1/buffer"@) == Some(0u64)
    &&& json_number_at(doc, "/bufferViews/2/buffer"@) == Some(0u64)
    &&& json_number_at(doc, "/scene"@) == Some(0u64)
    &&& json_number_at(doc, "/scenes/0/nodes/0"@) == Some(0u64)
    &&& json_number_at(doc, "/nodes/0/mesh"@) == Some(0u64)
}

/// A document has a number at each place at which it says what the numbers of a
/// mesh are.
pub open spec fn can_tell_types(doc: Seq<u8>) -> bool {
    &&& json_number_at(doc, "/accessors/0/componentType"@) is Some
    &&& json_number_at(doc, "/accessors/1/componentType"@) is Some
    &&& json_number_at(doc, "/accessors/2/componentType"@) is Some
    &&& json_number_at(doc, "/meshes/0/primitives/0/mode"@) is Some
    &&& json_number_at(doc, "/bufferViews/0/target"@) is Some
    &&& json_number_at(doc, "/bufferViews/1/target"@) is Some
    &&& json_number_at(doc, "/bufferViews/2/target"@) is Some
    &&& json_number_at(doc, "/bufferViews/0/buffer"@) is Some
    &&& json_number_at(doc, "/bufferViews/1/buffer"@) is Some
    &&& json_number_at(doc, "/bufferViews/2/buffer"@) is Some
    &&& json_number_at(doc, "/scene"@) is Some
    &&& json_number_at(doc, "/scenes/0/nodes/0"@) is Some
    &&& json_number_at(doc, "/nodes/0/mesh"@) is Some
}

/// The bytes of a component of a glTF accessor, by its type.
pub open spec fn component_size(component_type: u64) -> nat {
    if component_type == 5120 || component_type == 5121 {
        1
    } else if component_type == 5122 || component_type == 5123 {
        2
    } else if component_type == 5125 || component_type == 5126 {
        4
    } else {
        0
    }
}

/// The items of an accessor, of so many bytes each, take up its buffer view.
pub open spec fn fills_view(count: Option<u64>, length: Option<u64>, item: nat) -> bool {
    count is Some && length is Some && count->0 * item == length->0
}

/// One buffer view ends where another place is.
pub open spec fn ends_at(offset: Option<u64>, length: Option<u64>, end: Option<u64>) -> bool {
    offset is Some && length is Some && end is Some && offset->0 + length->0 == end->0
}

/// A glTF document says where the parts of a mesh lie: each accessor has its own
/// buffer view, as many items as the mesh has, and a view that they take up; the
/// views follow each other from the start of the buffer on.
pub open spec fn tells_layout(doc: Seq<u8>, m: MeshView) -> bool {
    &&& json_number_at(doc, "/meshes/0/primitives/0/attributes/POSITION"@) == Some(0u64)
    &&& json_number_at(doc, "/meshes/0/primitives/0/attributes/NORMAL"@) == Some(1u64)
    &&& json_number_at(doc, "/meshes/0/primitives/0/indices"@) == Some(2u64)
    &&& json_number_at(doc, "/accessors/0/bufferView"@) == Some(0u64)
    &&& json_number_at(doc, "/accessors/1/bufferView"@) == Some(1u64)
    &&& json_number_at(doc, "/accessors/2/bufferView"@) == Some(2u64)
    &&& json_number_at(doc, "/accessors/0/count"@) == Some(m.positions.len() as u64)
    &&& json_number_at(doc, "/accessors/1/count"@) == Some(m.positions.len() as u64)
    &&& json_number_at(doc, "/accessors/2/count"@) == Some(m.indices.len() as u64)
    &&& fills_view(
        json_number_at(doc, "/accessors/0/count"@),
        json_number_at(doc, "/bufferViews/0/byteLength"@),
        3 * component_size(5126),
    )
    &&& fills_view(
        json_number_at(doc, "/accessors/1/count"@),
        json_number_at(doc, "/bufferViews/1/byteLength"@),
        3 * component_size(5126),
    )
    &&& fills_view(
        json_number_at(doc, "/accessors/2/count"@),
        json_number_at(doc, "/bufferViews/2/byteLength"@),
        component_size(5125),
    )
    &&& json_number_at(doc, "/bufferViews/0/byteOffset"@) == Some(0u64)
    &&& ends_at(
        json_number_at(doc, "/bufferViews/0/byteOffset"@),
        json_number_at(doc, "/bufferViews/0/byteLength"@),
        json_number_at(doc, "/bufferViews/1/byteOffset"@),
    )
    &&& ends_at(
        json_number_at(doc, "/bufferViews/1/byteOffset"@),
        json_number_at(doc, "/bufferViews/1/byteLength"@),
        json_number_at(doc, "/bufferViews/2/byteOffset"@),
    )
    &&& m.normals.len() == m.positions.len() ==> ends_at(
        json_number_at(doc, "/bufferViews/2/byteOffset"@),
        json_number_at(doc, "/bufferViews/2/byteLength"@),
        json_number_at(doc, "/buffers/0/byteLength"@),
    )
}

/// The document of a GLB file says where the parts of a mesh lie and, as far as the
/// template that it was made from has room for it, what the numbers in them are.
/// The size of its buffer is that of the binary part.
pub open spec fn tells_mesh(template: Seq<u8>, m: MeshView, out: Seq<u8>) -> bool {
    match split(out) {
        Ok((json, bin)) => {
            let doc = unpadded(json);
            &&& tells_layout(doc, m)
            &&& can_tell_types(template) ==> tells_types(doc)
            &&& json_number_at(doc, "/buffers/0/byteLength"@) == Some(bin.len() as u64)
        },
        Err(_) => false,
    }
}

/// Encodes a mesh as a GLB file with one buffer and one mesh of positions, normals
/// and indices. The bounds of the positions are handed in as JSON arrays; `None`
/// where they are no JSON values. The file decodes to the mesh: its positions, as
/// many normals, and its indices, unless it is longer than a GLB file can say.
pub fn encode_glb(mesh: &Mesh, min_json: &str, max_json: &str) -> (r: Option<Vec<u8>>)
    requires
        fits(mesh@),
    ensures
        match r {
            Some(out) => encoded(mesh@, min_json@, max_json@) == Some(out@),
            None => encoded(mesh@, min_json@, max_json@) is None,
        },
        r is Some <==> is_template(encode_utf8(skeleton(min_json@, max_json@))),
        match r {
            Some(out) => mesh@.normals.len() == mesh@.positions.len() && out@.len() <= u32::MAX
                ==> decoded(out@) == Ok::<Option<MeshView>, GlbError>(Some(mesh@)),
            None => true,
        },
        match r {
            Some(out) => out@.len() <= u32::MAX ==> tells_mesh(
                encode_utf8(skeleton(min_json@, max_json@)),
                mesh@,
                out@,
            ),
            None => true,
        },
{
    let mut fields = layout_fields(mesh);
    let head = skeleton_start();
    let rest = cat3(",\"max\":", max_json, skeleton_end());
    let text = cat3(head, min_json, rest.as_str());
    let doc = text.as_str().as_bytes_vec();
    if !is_mesh_template(&doc, &fields) {
        return None;
    }
    let mut types: Vec<(String, u64)> = Vec::new();
    push_types(&mut types);
    proof {
        assert(fields_view(types@) =~= type_numbers());
    }
    if has_numbers(&doc, &types) {
        push_types(&mut fields);
    }
    proof {
        lemma_numbers_apart(doc@, mesh@);
        lemma_numbers_ready(doc@, mesh@);
    }
    let mut json = match write_numbers(&doc, &fields) {
        Some(json) => json,
        None => return None,
    };
    let ghost written = json@;
    pad_to_4(&mut json, 0x20);
    let mut bin = mesh_bytes(mesh);
    pad_to_4(&mut bin, 0);
    let out = frame_glb(&json, &bin);
    proof {
        lemma_lists_plain();
        if out@.len() <= u32::MAX {
            lemma_written_tells(doc@, mesh@, written);
        }
        if mesh@.normals.len() == mesh@.positions.len() && out@.len() <= u32::MAX {
            law_described_mesh_decodes(mesh@, written);
        }
    }
    Some(out)
}

// ---------------------------------------------------------------------------
// Decoding.

/// Why bytes are no GLB file that can be read.
#[derive(Debug, Clone, Copy, PartialEq, Eq, Structural)]
pub enum GlbError {
    TooShort,
    BadMagic,
    /// A chunk runs past the end.
    Overrun,
    MissingJson,
    BadJson,
    NoAccessors,
    NoBufferViews,
    NoPosition,
    NoIndices,
    /// An accessor names no buffer view.
    NoBufferView,
    /// There is no word at an offset.
    Truncated,
}

/// Reads the word at an offset.
pub fn read_u32(bytes: &[u8], off: usize) -> (r: Result<u32, GlbError>)
    ensures
        match r {
            Ok(n) => off + 4 <= bytes@.len() && n == word_at(bytes@, off as int),
            Err(e) => off + 4 > bytes@.len() && e == GlbError::Truncated,
        },
{
    if bytes.len() < 4 || off > bytes.len() - 4 {
        return Err(GlbError::Truncated);
    }
    Ok(word(bytes, off))
}

fn word(bytes: &[u8], off: usize) -> (n: u32)
    requires
        off + 4 <= bytes@.len(),
    ensures
        n == word_at(bytes@, off as int),
{
    let m: usize = bytes.len();
    bytes[off] as u32 + 256 * (bytes[off + 1] as u32) + 65536 * (bytes[off + 2] as u32) + 16777216
        * (bytes[off + 3] as u32)
}

/// The chunks of a file.
pub struct Chunks {
    pub json: Option<Seq<u8>>,
    pub bin: Option<Seq<u8>>,
}

/// The chunks with one more; a later one of its sort replaces an earlier one, and
/// those of other sorts are passed over.
pub open spec fn with_chunk(c: Chunks, sort: u32, data: Seq<u8>) -> Chunks {
    if sort == 0x4e4f_534a {
        Chunks { json: Some(data), ..c }
    } else if sort == 0x004e_4942 {
        Chunks { bin: Some(data), ..c }
    } else {
        c
    }
}

/// The chunks from an offset on; `None` where one runs past the end.
pub open spec fn chunks_from(b: Seq<u8>, off: int, c: Chunks) -> Option<Chunks>
    decreases b.len() - off,
{
    if off < 0 || off + 8 > b.len() {
        Some(c)
    } else {
        let start = off + 8;
        let end = start + word_at(b, off);
        if end > b.len() {
            None
        } else {
            chunks_from(b, end, with_chunk(c, word_at(b, off + 4), b.subrange(start, end)))
        }
    }
}

/// What a document says of an accessor: which buffer view its items lie in, how
/// many they are, and where the view starts.
#[derive(Debug, Clone, Copy, PartialEq, Eq, Structural)]
pub struct Slot {
    pub accessor: u64,
    pub view: Option<u64>,
    pub count: Option<u64>,
    pub offset: Option<u64>,
}

/// What a document says of a mesh.
#[derive(Debug, Clone, Copy, PartialEq, Eq, Structural)]
pub struct Layout {
    /// It is a document at all.
    pub document: bool,
    /// How many accessors it lists.
    pub accessors: Option<usize>,
    /// How many buffer views it lists.
    pub views: Option<usize>,
    pub positions: Option<Slot>,
    pub normals: Option<Slot>,
    pub indices: Option<Slot>,
}

/// Where an accessor's items lie in the binary chunk.
#[derive(Debug, Clone, Copy, PartialEq, Eq, Structural)]
pub struct Part {
    pub base: usize,
    pub count: usize,
}

/// Where the parts of a mesh lie in the binary chunk.
#[derive(Debug, Clone, Copy, PartialEq, Eq, Structural)]
pub struct Parts {
    pub positions: Part,
    pub normals: Option<Part>,
    pub indices: Part,
}

pub open spec fn or_zero(n: Option<u64>) -> usize {
    match n {
        Some(n) => n as usize,
        None => 0,
    }
}

/// The items lie within the binary chunk.
pub open spec fn within(p: Part, size: int, len: nat) -> bool {
    p.count == 0 || p.base + p.count * size <= len
}

/// Where the items of an accessor lie. `Ok(None)` where the accessor or its buffer
/// view is not in its list, or the items lie outside the binary chunk.
pub open spec fn part_of(s: Slot, accessors: usize, views: usize, size: int, len: nat) -> Result<
    Option<Part>,
    GlbError,
> {
    let p = Part { base: or_zero(s.offset), count: or_zero(s.count) };
    if s.accessor as usize >= accessors {
        Ok(None)
    } else if s.view is None {
        Err(GlbError::NoBufferView)
    } else if s.view->0 as usize >= views || !within(p, size, len) {
        Ok(None)
    } else {
        Ok(Some(p))
    }
}

/// Where the parts of a mesh lie. `Ok(None)` where the layout points outside its
/// lists or the binary chunk.
pub open spec fn parts_of(l: Layout, len: nat) -> Result<Option<Parts>, GlbError> {
    if !l.document {
        Err(GlbError::BadJson)
    } else if l.accessors is None {
        Err(GlbError::NoAccessors)
    } else if l.views is None {
        Err(GlbError::NoBufferViews)
    } else if l.positions is None {
        Err(GlbError::NoPosition)
    } else if l.indices is None {
        Err(GlbError::NoIndices)
    } else {
        let (a, v) = (l.accessors->0, l.views->0);
        match part_of(l.positions->0, a, v, 12, len) {
            Err(e) => Err(e),
            Ok(None) => Ok(None),
            Ok(Some(positions)) => match normals_of(l, len) {
                Err(e) => Err(e),
                Ok(None) => Ok(None),
                Ok(Some(normals)) => match part_of(l.indices->0, a, v, 4, len) {
                    Err(e) => Err(e),
                    Ok(None) => Ok(None),
                    Ok(Some(indices)) => Ok(Some(Parts { positions, normals, indices })),
                },
            },
        }
    }
}

/// Where the normals lie, where there are any.
pub open spec fn normals_of(l: Layout, len: nat) -> Result<Option<Option<Part>>, GlbError> {
    match l.normals {
        None => Ok(Some(None)),
        Some(s) => match part_of(s, l.accessors->0, l.views->0, 12, len) {
            Err(e) => Err(e),
            Ok(None) => Ok(None),
            Ok(Some(p)) => Ok(Some(Some(p))),
        },
    }
}

pub open spec fn vec_at(bin: Seq<u8>, off: int) -> Vec3 {
    Vec3 { x: word_at(bin, off), y: word_at(bin, off + 4), z: word_at(bin, off + 8) }
}

pub open spec fn vecs_in(bin: Seq<u8>, p: Part) -> Seq<Vec3> {
    Seq::new(p.count as nat, |i: int| vec_at(bin, p.base + 12 * i))
}

pub open spec fn words_in(bin: Seq<u8>, p: Part) -> Seq<u32> {
    Seq::new(p.count as nat, |i: int| word_at(bin, p.base + 4 * i))
}

/// The mesh whose parts lie in a binary chunk.
pub open spec fn mesh_at(p: Parts, bin: Seq<u8>) -> MeshView {
    MeshView {
        positions: vecs_in(bin, p.positions),
        normals: match p.normals {
            Some(n) => vecs_in(bin, n),
            None => Seq::empty(),
        },
        indices: words_in(bin, p.indices),
    }
}

/// The mesh that a layout describes. `Ok(None)` where it points outside its lists
/// or the binary chunk.
pub open spec fn assembled(l: Layout, bin: Seq<u8>) -> Result<Option<MeshView>, GlbError> {
    match parts_of(l, bin.len()) {
        Err(e) => Err(e),
        Ok(None) => Ok(None),
        Ok(Some(p)) => Ok(Some(mesh_at(p, bin))),
    }
}

/// A number of the first primitive of the first mesh.
pub open spec fn primitive_number(json: Seq<u8>, field: Seq<char>) -> Option<u64> {
    if json_array_at(json, "/meshes"@) is Some && json_array_at(
        json,
        "/meshes/0/primitives"@,
    ) is Some {
        json_number_at(json, primitive_place(field))
    } else {
        None
    }
}

/// What a document says of an accessor.
pub open spec fn slot_in(json: Seq<u8>, i: u64) -> Slot {
    let view = json_number_at(json, accessor_place(i as nat, "/bufferView"@));
    Slot {
        accessor: i,
        view,
        count: json_number_at(json, accessor_place(i as nat, "/count"@)),
        offset: match view {
            Some(v) => json_number_at(json, view_place(v as nat, "/byteOffset"@)),
            None => None,
        },
    }
}

pub open spec fn opt_slot_in(json: Seq<u8>, i: Option<u64>) -> Option<Slot> {
    match i {
        Some(i) => Some(slot_in(json, i)),
        None => None,
    }
}

/// What a document says of a mesh: the first primitive of its first mesh.
pub open spec fn layout_in(json: Seq<u8>) -> Layout {
    Layout {
        document: json_document(json),
        accessors: json_array_at(json, "/accessors"@),
        views: json_array_at(json, "/bufferViews"@),
        positions: opt_slot_in(json, primitive_number(json, "/attributes/POSITION"@)),
        normals: opt_slot_in(json, primitive_number(json, "/attributes/NORMAL"@)),
        indices: opt_slot_in(json, primitive_number(json, "/indices"@)),
    }
}

/// The JSON chunk and the binary chunk of a GLB file; a file without a binary
/// chunk has an empty one.
pub open spec fn split(b: Seq<u8>) -> Result<(Seq<u8>, Seq<u8>), GlbError> {
    if b.len() < 12 {
        Err(GlbError::TooShort)
    } else if word_at(b, 0) != 0x4654_6c67 {
        Err(GlbError::BadMagic)
    } else {
        match chunks_from(b, 12, Chunks { json: None, bin: None }) {
            None => Err(GlbError::Overrun),
            Some(c) => match c.json {
                None => Err(GlbError::MissingJson),
                Some(json) => Ok(
                    (
                        json,
                        match c.bin {
                            Some(bin) => bin,
                            None => Seq::empty(),
                        },
                    ),
                ),
            },
        }
    }
}

/// The mesh of a GLB file. `Ok(None)` where the file points outside itself.
pub open spec fn decoded(b: Seq<u8>) -> Result<Option<MeshView>, GlbError> {
    match split(b) {
        Err(e) => Err(e),
        Ok((json, bin)) => assembled(layout_in(unpadded(json)), bin),
    }
}

/// A file does not point outside itself.
pub open spec fn points_inside(b: Seq<u8>) -> bool {
    decoded(b) != Ok::<Option<MeshView>, GlbError>(None)
}

#[verifier::truncate]
fn as_length(n: u64) -> (r: usize)
    ensures
        r == n as usize,
{
    n as usize
}

fn length_or_zero(n: Option<u64>) -> (r: usize)
    ensures
        r == or_zero(n),
{
    match n {
        Some(n) => as_length(n),
        None => 0,
    }
}

/// Do items lie within the binary chunk?
fn lies_within(p: Part, size: usize, len: usize) -> (b: bool)
    requires
        0 < size <= 12,
    ensures
        b == within(p, size as int, len as nat),
{
    if p.count == 0 {
        return true;
    }
    let count: usize = p.count;
    assert(0 <= count as int * size as int <= 0xffff_ffff_ffff_ffff * 12) by (nonlinear_arith)
        requires
            0 <= count <= 0xffff_ffff_ffff_ffff,
            0 < size <= 12,
    ;
    let end: u128 = p.base as u128 + count as u128 * size as u128;
    end <= len as u128
}

fn find_part(s: &Slot, accessors: usize, views: usize, size: usize, len: usize) -> (r: Result<
    Option<Part>,
    GlbError,
>)
    requires
        0 < size <= 12,
    ensures
        r == part_of(*s, accessors, views, size as int, len as nat),
{
    if as_length(s.accessor) >= accessors {
        return Ok(None);
    }
    let view: u64 = match s.view {
        Some(view) => view,
        None => return Err(GlbError::NoBufferView),
    };
    let p = Part { base: length_or_zero(s.offset), count: length_or_zero(s.count) };
    if as_length(view) >= views || !lies_within(p, size, len) {
        return Ok(None);
    }
    Ok(Some(p))
}

/// Finds the parts of a mesh in a binary chunk of some length. `Ok(None)` where the
/// layout points outside its lists or the chunk.
pub fn find_parts(l: &Layout, len: usize) -> (r: Result<Option<Parts>, GlbError>)
    ensures
        r == parts_of(*l, len as nat),
{
    if !l.document {
        return Err(GlbError::BadJson);
    }
    let accessors: usize = match l.accessors {
        Some(n) => n,
        None => return Err(GlbError::NoAccessors),
    };
    let views: usize = match l.views {
        Some(n) => n,
        None => return Err(GlbError::NoBufferViews),
    };
    let pos = match l.positions {
        Some(s) => s,
        None => return Err(GlbError::NoPosition),
    };
    let idx = match l.indices {
        Some(s) => s,
        None => return Err(GlbError::NoIndices),
    };
    let positions = match find_part(&pos, accessors, views, 12, len) {
        Ok(Some(p)) => p,
        Ok(None) => return Ok(None),
        Err(e) => return Err(e),
    };
    let normals = match l.normals {
        Some(s) => match find_part(&s, accessors, views, 12, len) {
            Ok(Some(p)) => Some(p),
            Ok(None) => return Ok(None),
            Err(e) => return Err(e),
        },
        None => None,
    };
    match find_part(&idx, accessors, views, 4, len) {
        Ok(Some(indices)) => Ok(Some(Parts { positions, normals, indices })),
        Ok(None) => Ok(None),
        Err(e) => Err(e),
    }
}

fn read_vecs(bin: &[u8], p: Part) -> (r: Vec<Vec3>)
    requires
        within(p, 12, bin@.len()),
    ensures
        r@ == vecs_in(bin@, p),
{
    let ghost all = vecs_in(bin@, p);
    let mut r: Vec<Vec3> = Vec::new();
    let mut i: usize = 0;
    while i < p.count
        invariant
            i <= p.count,
            within(p, 12, bin@.len()),
            all == vecs_in(bin@, p),
            r@ == all.take(i as int),
        decreases p.count - i,
    {
        let m: usize = bin.len();
        assert(p.base + 12 * i + 12 <= m);
        let o: usize = p.base + i * 12;
        r.push(Vec3 { x: word(bin, o), y: word(bin, o + 4), z: word(bin, o + 8) });
        i = i + 1;
        proof {
            assert(all.take(i as int) =~= all.take(i - 1).push(all[i - 1]));
        }
    }
    proof {
        assert(all.take(i as int) =~= all);
    }
    r
}

fn read_words(bin: &[u8], p: Part) -> (r: Vec<u32>)
    requires
        within(p, 4, bin@.len()),
    ensures
        r@ == words_in(bin@, p),
{
    let ghost all = words_in(bin@, p);
    let mut r: Vec<u32> = Vec::new();
    let mut i: usize = 0;
    while i < p.count
        invariant
            i <= p.count,
            within(p, 4, bin@.len()),
            all == words_in(bin@, p),
            r@ == all.take(i as int),
        decreases p.count - i,
    {
        let m: usize = bin.len();
        assert(p.base + 4 * i + 4 <= m);
        let o: usize = p.base + i * 4;
        r.push(word(bin, o));
        i = i + 1;
        proof {
            assert(all.take(i as int) =~= all.take(i - 1).push(all[i - 1]));
        }
    }
    proof {
        assert(all.take(i as int) =~= all);
    }
    r
}

/// Reads the mesh that a layout describes out of a binary chunk, where the layout
/// does not point outside.
pub fn assemble(l: &Layout, bin: &[u8]) -> (r: Result<Mesh, GlbError>)
    requires
        parts_of(*l, bin@.len()) != Ok::<Option<Parts>, GlbError>(None),
    ensures
        match r {
            Ok(m) => assembled(*l, bin@) == Ok::<Option<MeshView>, GlbError>(Some(m@)),
            Err(e) => assembled(*l, bin@) == Err::<Option<MeshView>, GlbError>(e),
        },
{
    let parts = match find_parts(l, bin.len()) {
        Ok(Some(p)) => p,
        Ok(None) => {
            proof {
                assert(false);
            }
            return Err(GlbError::Truncated);
        },
        Err(e) => return Err(e),
    };
    let positions = read_vecs(bin, parts.positions);
    let normals = match parts.normals {
        Some(p) => read_vecs(bin, p),
        None => Vec::new(),
    };
    let indices = read_words(bin, parts.indices);
    let m = Mesh { positions, normals, indices };
    proof {
        assert(m@.normals =~= mesh_at(parts, bin@).normals);
    }
    Ok(m)
}

fn find_primitive_number(json: &Vec<u8>, field: &str) -> (r: Option<u64>)
    ensures
        r == primitive_number(unpadded(json@), field@),
{
    if array_at(json, "/meshes").is_some() && array_at(json, "/meshes/0/primitives").is_some() {
        number_at(json, primitive_pointer(field).as_str())
    } else {
        None
    }
}

fn read_slot(json: &Vec<u8>, i: Option<u64>) -> (r: Option<Slot>)
    ensures
        r == opt_slot_in(unpadded(json@), i),
{
    let accessor: u64 = match i {
        Some(i) => i,
        None => return None,
    };
    let view = number_at(json, accessor_pointer(accessor, "/bufferView").as_str());
    let count = number_at(json, accessor_pointer(accessor, "/count").as_str());
    let offset = match view {
        Some(v) => number_at(json, view_pointer(v, "/byteOffset").as_str()),
        None => None,
    };
    Some(Slot { accessor, view, count, offset })
}

/// Reads what a document says of a mesh; blanks at its end do not matter.
pub fn read_layout(json: &Vec<u8>) -> (l: Layout)
    ensures
        l == layout_in(unpadded(json@)),
{
    Layout {
        document: is_document(json),
        accessors: array_at(json, "/accessors"),
        views: array_at(json, "/bufferViews"),
        positions: read_slot(json, find_primitive_number(json, "/attributes/POSITION")),
        normals: read_slot(json, find_primitive_number(json, "/attributes/NORMAL")),
        indices: read_slot(json, find_primitive_number(json, "/indices")),
    }
}

fn copy_range(bytes: &[u8], from: usize, to: usize) -> (r: Vec<u8>)
    requires
        from <= to <= bytes@.len(),
    ensures
        r@ == bytes@.subrange(from as int, to as int),
{
    let mut r: Vec<u8> = Vec::new();
    let mut i: usize = from;
    while i < to
        invariant
            from <= i <= to <= bytes@.len(),
            r@ == bytes@.subrange(from as int, i as int),
        decreases to - i,
    {
        r.push(bytes[i]);
        i = i + 1;
        proof {
            assert(bytes@.subrange(from as int, i as int) =~= bytes@.subrange(
                from as int,
                i - 1,
            ).push(bytes@[i - 1]));
        }
    }
    r
}

spec fn chunks_view(json: Option<Vec<u8>>, bin: Option<Vec<u8>>) -> Chunks {
    Chunks { json: opt_view(json), bin: opt_view(bin) }
}

/// Splits a GLB file into its JSON chunk and its binary chunk.
pub fn split_glb(bytes: &[u8]) -> (r: Result<(Vec<u8>, Vec<u8>), GlbError>)
    ensures
        match r {
            Ok(c) => split(bytes@) == Ok::<(Seq<u8>, Seq<u8>), GlbError>((c.0@, c.1@)),
            Err(e) => split(bytes@) == Err::<(Seq<u8>, Seq<u8>), GlbError>(e),
        },
{
    let n: usize = bytes.len();
    if n < 12 {
        return Err(GlbError::TooShort);
    }
    if word(bytes, 0) != 0x4654_6c67 {
        return Err(GlbError::BadMagic);
    }
    let ghost none = Chunks { json: None, bin: None };
    let mut json: Option<Vec<u8>> = None;
    let mut bin: Option<Vec<u8>> = None;
    let mut off: usize = 12;
    while n - off >= 8
        invariant
            n == bytes@.len(),
            off <= n,
            bytes@.len() >= 12,
            word_at(bytes@, 0) == 0x4654_6c67,
            none == (Chunks { json: None, bin: None }),
            chunks_from(bytes@, 12, none) == chunks_from(
                bytes@,
                off as int,
                chunks_view(json, bin),
            ),
        decreases n - off,
    {
        let len: u32 = word(bytes, off);
        let sort: u32 = word(bytes, off + 4);
        let start: usize = off + 8;
        if len as u64 > (n - start) as u64 {
            return Err(GlbError::Overrun);
        }
        let end: usize = start + len as usize;
        if sort == 0x4e4f_534a {
            json = Some(copy_range(bytes, start, end));
        } else if sort == 0x004e_4942 {
            bin = Some(copy_range(bytes, start, end));
        }
        off = end;
    }
    let json = match json {
        Some(json) => json,
        None => return Err(GlbError::MissingJson),
    };
    let bin = match bin {
        Some(bin) => bin,
        None => Vec::new(),
    };
    proof {
        if chunks_from(bytes@, 12, none)->0.bin is None {
            assert(bin@ =~= Seq::empty());
        }
    }
    Ok((json, bin))
}

/// Decodes a GLB file: the positions, normals and indices of the first primitive
/// of its first mesh. The file must not point outside itself.
pub fn decode_glb(bytes: &[u8]) -> (r: Result<Mesh, GlbError>)
    requires
        points_inside(bytes@),
    ensures
        match r {
            Ok(m) => decoded(bytes@) == Ok::<Option<MeshView>, GlbError>(Some(m@)),
            Err(e) => decoded(bytes@) == Err::<Option<MeshView>, GlbError>(e),
        },
{
    match split_glb(bytes) {
        Ok((json, bin)) => assemble(&read_layout(&json), &bin),
        Err(e) => Err(e),
    }
}

/// Decodes a GLB file of unknown origin; `Ok(None)` where it points outside itself.
pub fn try_decode_glb(bytes: &[u8]) -> (r: Result<Option<Mesh>, GlbError>)
    ensures
        match r {
            Ok(Some(m)) => decoded(bytes@) == Ok::<Option<MeshView>, GlbError>(Some(m@)),
            Ok(None) => !points_inside(bytes@),
            Err(e) => decoded(bytes@) == Err::<Option<MeshView>, GlbError>(e),
        },
{
    match split_glb(bytes) {
        Ok((json, bin)) => match find_parts(&read_layout(&json), bin.len()) {
            Ok(None) => Ok(None),
            _ => match decode_glb(bytes) {
                Ok(m) => Ok(Some(m)),
                Err(e) => Err(e),
            },
        },
        Err(e) => Err(e),
    }
}

// ---------------------------------------------------------------------------
// What goes in comes out.

/// Where the words of the parts of a mesh stand.
proof fn lemma_mesh_words(m: MeshView, i: int)
    ensures
        0 <= i < m.positions.len() ==> {
            &&& mesh_words(m)[3 * i] == m.positions[i].x
            &&& mesh_words(m)[3 * i + 1] == m.positions[i].y
            &&& mesh_words(m)[3 * i + 2] == m.positions[i].z
        },
        0 <= i < m.normals.len() ==> {
            let k = 3 * m.positions.len() + 3 * i;
            &&& mesh_words(m)[k] == m.normals[i].x
            &&& mesh_words(m)[k + 1] == m.normals[i].y
            &&& mesh_words(m)[k + 2] == m.normals[i].z
        },
        0 <= i < m.indices.len() ==> mesh_words(m)[3 * m.positions.len() + 3 * m.normals.len() + i]
            == m.indices[i],
{
    let p = vec_words(m.positions);
    let n = vec_words(m.normals);
    let w = mesh_words(m);
    assert((3 * i) % 3 == 0 && (3 * i) / 3 == i);
    assert((3 * i + 1) % 3 == 1 && (3 * i + 1) / 3 == i);
    assert((3 * i + 2) % 3 == 2 && (3 * i + 2) / 3 == i);
    if 0 <= i < m.positions.len() {
        assert(w[3 * i] == p[3 * i]);
        assert(w[3 * i + 1] == p[3 * i + 1]);
        assert(w[3 * i + 2] == p[3 * i + 2]);
    }
    if 0 <= i < m.normals.len() {
        let k = p.len() + 3 * i;
        assert(w[k] == n[3 * i]);
        assert(w[k + 1] == n[3 * i + 1]);
        assert(w[k + 2] == n[3 * i + 2]);
    }
}

proof fn lemma_vec_at(words: Seq<u32>, k: int)
    requires
        0 <= k,
        k + 3 <= words.len(),
    ensures
        vec_at(word_bytes(words), 4 * k) == (Vec3 {
            x: words[k],
            y: words[k + 1],
            z: words[k + 2],
        }),
{
    lemma_word_bytes(words, k);
    lemma_word_bytes(words, k + 1);
    lemma_word_bytes(words, k + 2);
    assert(4 * (k + 1) == 4 * k + 4);
    assert(4 * (k + 2) == 4 * k + 8);
}

/// A word that stands in front of a longer text.
proof fn lemma_word_in(a: Seq<u8>, b: Seq<u8>, c: Seq<u8>, off: int)
    requires
        0 <= off,
        off + 4 <= b.len(),
    ensures
        word_at(a + b + c, a.len() + off) == word_at(b, off),
{
    let s = a + b + c;
    let k = a.len() + off;
    assert(s[k] == b[off]);
    assert(s[k + 1] == b[off + 1]);
    assert(s[k + 2] == b[off + 2]);
    assert(s[k + 3] == b[off + 3]);
}

/// The chunks of a file are the ones that it was put together from.
pub proof fn law_chunks_come_back(json: Seq<u8>, bin: Seq<u8>)
    requires
        28 + json.len() + bin.len() <= u32::MAX,
    ensures
        glb_of(json, bin).len() >= 12,
        word_at(glb_of(json, bin), 0) == 0x4654_6c67,
        chunks_from(glb_of(json, bin), 12, Chunks { json: None, bin: None }) == Some(
            Chunks { json: Some(json), bin: Some(bin) },
        ),
{
    let head = seq![
        0x4654_6c67u32,
        2u32,
        (28 + json.len() + bin.len()) as u32,
        json.len() as u32,
        0x4e4f_534au32,
    ];
    let h = word_bytes(head);
    let mid = seq![bin.len() as u32, 0x004e_4942u32];
    let t = word_bytes(mid);
    let g = glb_of(json, bin);
    let none = Seq::<u8>::empty();
    assert(g =~= none + h + (json + (t + bin)));
    lemma_word_in(none, h, json + (t + bin), 0);
    lemma_word_in(none, h, json + (t + bin), 12);
    lemma_word_in(none, h, json + (t + bin), 16);
    lemma_word_bytes(head, 0);
    lemma_word_bytes(head, 3);
    lemma_word_bytes(head, 4);
    assert(word_at(g, 12) == json.len());
    assert(word_at(g, 16) == 0x4e4f_534a);
    assert(g.subrange(20, 20 + json.len() as int) =~= json);
    let pre = h + json;
    assert(g =~= pre + t + bin);
    lemma_word_in(pre, t, bin, 0);
    lemma_word_in(pre, t, bin, 4);
    lemma_word_bytes(mid, 0);
    lemma_word_bytes(mid, 1);
    let off = (20 + json.len()) as int;
    assert(word_at(g, off) == bin.len());
    assert(word_at(g, off + 4) == 0x004e_4942);
    assert(g.subrange(off + 8, off + 8 + bin.len()) =~= bin);
    let c0 = Chunks { json: None, bin: None };
    let c1 = Chunks { json: Some(json), bin: None };
    let c2 = Chunks { json: Some(json), bin: Some(bin) };
    assert(chunks_from(g, g.len() as int, c2) == Some(c2));
    assert(chunks_from(g, off, c1) == chunks_from(g, off + 8 + bin.len(), c2));
    assert(chunks_from(g, 12, c0) == chunks_from(g, off, c1));
}

/// The vectors and indices of a mesh stand where its parts say.
proof fn lemma_contents_come_back(m: MeshView)
    requires
        m.normals.len() == m.positions.len(),
        word_bytes(mesh_words(m)).len() <= u32::MAX,
    ensures
        ({
            let n = m.positions.len();
            let bin = word_bytes(mesh_words(m));
            &&& vecs_in(bin, Part { base: 0, count: n as usize }) == m.positions
            &&& vecs_in(bin, Part { base: (12 * n) as usize, count: n as usize }) == m.normals
            &&& words_in(
                bin,
                Part { base: (24 * n) as usize, count: m.indices.len() as usize },
            ) == m.indices
        }),
{
    let n = m.positions.len();
    let words = mesh_words(m);
    let bin = word_bytes(words);
    assert(words.len() == 6 * n + m.indices.len());
    let p0 = Part { base: 0, count: n as usize };
    let p1 = Part { base: (12 * n) as usize, count: n as usize };
    let p2 = Part { base: (24 * n) as usize, count: m.indices.len() as usize };
    assert forall|i: int| 0 <= i < n implies vec_at(bin, 0 + 12 * i) == m.positions[i] by {
        lemma_mesh_words(m, i);
        lemma_vec_at(words, 3 * i);
    }
    assert(vecs_in(bin, p0) =~= m.positions);
    assert forall|i: int| 0 <= i < n implies vec_at(bin, 12 * n + 12 * i) == m.normals[i] by {
        lemma_mesh_words(m, i);
        lemma_vec_at(words, 3 * n + 3 * i);
        assert(4 * (3 * n + 3 * i) == 12 * n + 12 * i);
    }
    assert(vecs_in(bin, p1) =~= m.normals);
    assert forall|i: int| 0 <= i < m.indices.len() implies word_at(bin, 24 * n + 4 * i)
        == m.indices[i] by {
        lemma_mesh_words(m, i);
        lemma_word_bytes(words, 6 * n + i);
        assert(4 * (6 * n + i) == 24 * n + 4 * i);
    }
    assert(words_in(bin, p2) =~= m.indices);
}

/// A file whose document describes a mesh decodes to the mesh: its positions, as
/// many normals, and its indices. The file must not be longer than a GLB file can
/// say.
pub proof fn law_described_mesh_decodes(m: MeshView, doc: Seq<u8>)
    requires
        m.normals.len() == m.positions.len(),
        describes(doc, layout_numbers(m)),
        unpadded(doc) == doc,
        glb_of(padded(doc, 0x20), padded(word_bytes(mesh_words(m)), 0)).len() <= u32::MAX,
    ensures
        decoded(glb_of(padded(doc, 0x20), padded(word_bytes(mesh_words(m)), 0))) == Ok::<
            Option<MeshView>,
            GlbError,
        >(Some(m)),
{
    let json = padded(doc, 0x20);
    let words = mesh_words(m);
    let bin = word_bytes(words);
    let glb = glb_of(json, bin);
    assert(padded(bin, 0) =~= bin);
    assert(glb.len() == 28 + json.len() + bin.len());
    lemma_unpadded(doc, padding(doc.len() as int) as nat);
    assert(unpadded(json) == doc);
    law_chunks_come_back(json, bin);
    let n = m.positions.len();
    let numbers = layout_numbers(m);
    assert(words.len() == 6 * n + m.indices.len());
    assert(numbers[0].1 == 0 && numbers[1].1 == 1 && numbers[2].1 == 2);
    assert(numbers[3].1 == 0 && numbers[4].1 == n);
    assert(numbers[5].1 == 1 && numbers[6].1 == n);
    assert(numbers[7].1 == 2 && numbers[8].1 == m.indices.len());
    assert(numbers[9].1 == 0 && numbers[11].1 == 12 * n && numbers[13].1 == 24 * n);
    let p0 = Part { base: 0, count: n as usize };
    let p1 = Part { base: (12 * n) as usize, count: n as usize };
    let p2 = Part { base: (24 * n) as usize, count: m.indices.len() as usize };
    let len = bin.len();
    assert(part_of(slot_in(doc, 0), 3, 3, 12, len) == Ok::<Option<Part>, GlbError>(Some(p0)));
    assert(part_of(slot_in(doc, 1), 3, 3, 12, len) == Ok::<Option<Part>, GlbError>(Some(p1)));
    assert(part_of(slot_in(doc, 2), 3, 3, 4, len) == Ok::<Option<Part>, GlbError>(Some(p2)));
    let parts = Parts { positions: p0, normals: Some(p1), indices: p2 };
    assert(parts_of(layout_in(doc), len) == Ok::<Option<Parts>, GlbError>(Some(parts)));
    lemma_contents_come_back(m);
    assert(mesh_at(parts, bin) == m);
}

/// Blanks that are put behind a document are taken off again.
proof fn lemma_unpadded(doc: Seq<u8>, n: nat)
    requires
        unpadded(doc) == doc,
    ensures
        unpadded(doc + Seq::new(n, |i: int| 0x20u8)) == doc,
    decreases n,
{
    let b = doc + Seq::new(n, |i: int| 0x20u8);
    if n == 0 {
        assert(b =~= doc);
    } else {
        let m = (n - 1) as nat;
        lemma_unpadded(doc, m);
        assert(b.last() == 0x20);
        assert(b.drop_last() =~= doc + Seq::new(m, |i: int| 0x20u8));
    }
}

proof fn lemma_lists_plain()
    ensures
        plain("/meshes"@),
        plain("/meshes/0/primitives"@),
        plain("/accessors"@),
        plain("/bufferViews"@),
{
    reveal_strlit("/meshes");
    reveal_strlit("/meshes/0/primitives");
    reveal_strlit("/accessors");
    reveal_strlit("/bufferViews");
}

proof fn lemma_template_ready(doc: Seq<u8>, m: MeshView)
    requires
        is_template(doc),
    ensures
        ready(doc, layout_numbers(m)),
{
    let numbers = layout_numbers(m);
    assert forall|i: int| 0 <= i < numbers.len() implies json_number_at(
        doc,
        (#[trigger] numbers[i]).0,
    ) is Some by {
        assert(numbers[i].0 == layout_places()[i]);
        assert(json_number_at(doc, layout_places()[i]) is Some);
    }
}

proof fn lemma_numbers_ready(doc: Seq<u8>, m: MeshView)
    requires
        is_template(doc),
    ensures
        ready(doc, mesh_numbers(doc, m)),
{
    lemma_template_ready(doc, m);
    let numbers = mesh_numbers(doc, m);
    assert forall|i: int| 0 <= i < numbers.len() implies json_number_at(
        doc,
        (#[trigger] numbers[i]).0,
    ) is Some by {
        if i < 16 {
            assert(numbers[i] == layout_numbers(m)[i]);
        } else {
            assert(numbers[i] == type_numbers()[i - 16]);
        }
    }
}

/// A number of its own for each of the places, told from a few characters.
spec fn place_code(p: Seq<char>) -> int {
    if p[1] == 'm' {
        if p[23] == 'i' {
            2
        } else if p[34] == 'P' {
            0
        } else {
            1
        }
    } else if p[1] == 'a' {
        let k: int = if p[11] == '0' {
            0
        } else if p[11] == '1' {
            1
        } else {
            2
        };
        3 + 2 * k + if p[13] == 'c' {
            1int
        } else {
            0
        }
    } else if p[7] == 's' {
        15
    } else {
        let k: int = if p[13] == '0' {
            0
        } else if p[13] == '1' {
            1
        } else {
            2
        };
        9 + 2 * k + if p[19] == 'L' {
            1int
        } else {
            0
        }
    }
}

proof fn lemma_primitive_place(field: Seq<char>)
    requires
        plain(field),
    ensures
        plain(primitive_place(field)),
        primitive_place(field)[1] == 'm',
        forall|k: int|
            22 <= k < 22 + field.len() ==> #[trigger] primitive_place(field)[k] == field[k - 22],
{
    reveal_strlit("/meshes/0/primitives/0");
}

proof fn lemma_accessor_place(i: nat, field: Seq<char>)
    requires
        i < 3,
        plain(field),
    ensures
        plain(accessor_place(i, field)),
        accessor_place(i, field)[1] == 'a',
        accessor_place(i, field)[11] == digit_char(i),
        forall|k: int|
            12 <= k < 12 + field.len() ==> #[trigger] accessor_place(i, field)[k] == field[k - 12],
{
    reveal_strlit("/accessors/");
    assert(decimal_of(i) == seq![digit_char(i)]);
}

proof fn lemma_view_place(i: nat, field: Seq<char>)
    requires
        i < 3,
        plain(field),
    ensures
        plain(view_place(i, field)),
        view_place(i, field)[1] == 'b',
        view_place(i, field)[7] == 'V',
        view_place(i, field)[13] == digit_char(i),
        forall|k: int|
            14 <= k < 14 + field.len() ==> #[trigger] view_place(i, field)[k] == field[k - 14],
{
    reveal_strlit("/bufferViews/");
    assert(decimal_of(i) == seq![digit_char(i)]);
}

proof fn lemma_places_apart(m: MeshView)
    ensures
        apart(layout_numbers(m)),
{
    let places = layout_places();
    let numbers = layout_numbers(m);
    reveal_strlit("/attributes/POSITION");
    reveal_strlit("/attributes/NORMAL");
    reveal_strlit("/indices");
    reveal_strlit("/bufferView");
    reveal_strlit("/count");
    reveal_strlit("/byteOffset");
    reveal_strlit("/byteLength");
    reveal_strlit("/buffers/0/byteLength");
    lemma_primitive_place("/attributes/POSITION"@);
    lemma_primitive_place("/attributes/NORMAL"@);
    lemma_primitive_place("/indices"@);
    assert(place_code(places[0]) == 0);
    assert(place_code(places[1]) == 1);
    assert(place_code(places[2]) == 2);
    lemma_accessor_place(0, "/bufferView"@);
    lemma_accessor_place(0, "/count"@);
    lemma_accessor_place(1, "/bufferView"@);
    lemma_accessor_place(1, "/count"@);
    lemma_accessor_place(2, "/bufferView"@);
    lemma_accessor_place(2, "/count"@);
    assert(place_code(places[3]) == 3);
    assert(place_code(places[4]) == 4);
    assert(place_code(places[5]) == 5);
    assert(place_code(places[6]) == 6);
    assert(place_code(places[7]) == 7);
    assert(place_code(places[8]) == 8);
    lemma_view_place(0, "/byteOffset"@);
    lemma_view_place(0, "/byteLength"@);
    lemma_view_place(1, "/byteOffset"@);
    lemma_view_place(1, "/byteLength"@);
    lemma_view_place(2, "/byteOffset"@);
    lemma_view_place(2, "/byteLength"@);
    assert(place_code(places[9]) == 9);
    assert(place_code(places[10]) == 10);
    assert(place_code(places[11]) == 11);
    assert(place_code(places[12]) == 12);
    assert(place_code(places[13]) == 13);
    assert(place_code(places[14]) == 14);
    assert(plain("/buffers/0/byteLength"@));
    assert(place_code(places[15]) == 15);
    assert forall|i: int| 0 <= i < 16 implies place_code(#[trigger] places[i]) == i && plain(
        places[i],
    ) by {
        if i < 3 {
        } else if i < 9 {
        } else {
        }
    }
    assert forall|i: int| 0 <= i < numbers.len() implies plain((#[trigger] numbers[i]).0) by {
        assert(numbers[i].0 == places[i]);
    }
    assert forall|i: int, j: int| 0 <= i < j < numbers.len() implies (#[trigger] numbers[i]).0 != (
    #[trigger] numbers[j]).0 by {
        assert(numbers[i].0 == places[i]);
        assert(numbers[j].0 == places[j]);
        assert(place_code(places[i]) == i);
        assert(place_code(places[j]) == j);
    }
}

proof fn lemma_accessor_pointers()
    ensures
        "/accessors/0/bufferView"@ == accessor_place(0, "/bufferView"@),
        "/accessors/1/bufferView"@ == accessor_place(1, "/bufferView"@),
        "/accessors/2/bufferView"@ == accessor_place(2, "/bufferView"@),
        "/accessors/0/count"@ == accessor_place(0, "/count"@),
        "/accessors/1/count"@ == accessor_place(1, "/count"@),
        "/accessors/2/count"@ == accessor_place(2, "/count"@),
        "/accessors/0/componentType"@ == accessor_place(0, "/componentType"@),
        "/accessors/1/componentType"@ == accessor_place(1, "/componentType"@),
        "/accessors/2/componentType"@ == accessor_place(2, "/componentType"@),
{
    reveal_strlit("/accessors/");
    reveal_strlit("/bufferView");
    reveal_strlit("/count");
    reveal_strlit("/componentType");
    reveal_strlit("/accessors/0/bufferView");
    reveal_strlit("/accessors/1/bufferView");
    reveal_strlit("/accessors/2/bufferView");
    reveal_strlit("/accessors/0/count");
    reveal_strlit("/accessors/1/count");
    reveal_strlit("/accessors/2/count");
    reveal_strlit("/accessors/0/componentType");
    reveal_strlit("/accessors/1/componentType");
    reveal_strlit("/accessors/2/componentType");
    assert(decimal_of(0) == seq!['0']);
    assert(decimal_of(1) == seq!['1']);
    assert(decimal_of(2) == seq!['2']);
    assert("/accessors/0/bufferView"@ =~= accessor_place(0, "/bufferView"@));
    assert("/accessors/1/bufferView"@ =~= accessor_place(1, "/bufferView"@));
    assert("/accessors/2/bufferView"@ =~= accessor_place(2, "/bufferView"@));
    assert("/accessors/0/count"@ =~= accessor_place(0, "/count"@));
    assert("/accessors/1/count"@ =~= accessor_place(1, "/count"@));
    assert("/accessors/2/count"@ =~= accessor_place(2, "/count"@));
    assert("/accessors/0/componentType"@ =~= accessor_place(0, "/componentType"@));
    assert("/accessors/1/componentType"@ =~= accessor_place(1, "/componentType"@));
    assert("/accessors/2/componentType"@ =~= accessor_place(2, "/componentType"@));
}

proof fn lemma_view_pointers()
    ensures
        "/bufferViews/0/byteOffset"@ == view_place(0, "/byteOffset"@),
        "/bufferViews/1/byteOffset"@ == view_place(1, "/byteOffset"@),
        "/bufferViews/2/byteOffset"@ == view_place(2, "/byteOffset"@),
        "/bufferViews/0/byteLength"@ == view_place(0, "/byteLength"@),
        "/bufferViews/1/byteLength"@ == view_place(1, "/byteLength"@),
        "/bufferViews/2/byteLength"@ == view_place(2, "/byteLength"@),
        "/bufferViews/0/target"@ == view_place(0, "/target"@),
        "/bufferViews/1/target"@ == view_place(1, "/target"@),
        "/bufferViews/2/target"@ == view_place(2, "/target"@),
        "/bufferViews/0/buffer"@ == view_place(0, "/buffer"@),
        "/bufferViews/1/buffer"@ == view_place(1, "/buffer"@),
        "/bufferViews/2/buffer"@ == view_place(2, "/buffer"@),
{
    reveal_strlit("/bufferViews/");
    reveal_strlit("/byteOffset");
    reveal_strlit("/byteLength");
    reveal_strlit("/target");
    reveal_strlit("/buffer");
    reveal_strlit("/bufferViews/0/byteOffset");
    reveal_strlit("/bufferViews/1/byteOffset");
    reveal_strlit("/bufferViews/2/byteOffset");
    reveal_strlit("/bufferViews/0/byteLength");
    reveal_strlit("/bufferViews/1/byteLength");
    reveal_strlit("/bufferViews/2/byteLength");
    reveal_strlit("/bufferViews/0/target");
    reveal_strlit("/bufferViews/1/target");
    reveal_strlit("/bufferViews/2/target");
    reveal_strlit("/bufferViews/0/buffer");
    reveal_strlit("/bufferViews/1/buffer");
    reveal_strlit("/bufferViews/2/buffer");
    assert(decimal_of(0) == seq!['0']);
    assert(decimal_of(1) == seq!['1']);
    assert(decimal_of(2) == seq!['2']);
    assert("/bufferViews/0/byteOffset"@ =~= view_place(0, "/byteOffset"@));
    assert("/bufferViews/1/byteOffset"@ =~= view_place(1, "/byteOffset"@));
    assert("/bufferViews/2/byteOffset"@ =~= view_place(2, "/byteOffset"@));
    assert("/bufferViews/0/byteLength"@ =~= view_place(0, "/byteLength"@));
    assert("/bufferViews/1/byteLength"@ =~= view_place(1, "/byteLength"@));
    assert("/bufferViews/2/byteLength"@ =~= view_place(2, "/byteLength"@));
    assert("/bufferViews/0/target"@ =~= view_place(0, "/target"@));
    assert("/bufferViews/1/target"@ =~= view_place(1, "/target"@));
    assert("/bufferViews/2/target"@ =~= view_place(2, "/target"@));
    assert("/bufferViews/0/buffer"@ =~= view_place(0, "/buffer"@));
    assert("/bufferViews/1/buffer"@ =~= view_place(1, "/buffer"@));
    assert("/bufferViews/2/buffer"@ =~= view_place(2, "/buffer"@));
}

proof fn lemma_primitive_pointers()
    ensures
        "/meshes/0/primitives/0/attributes/POSITION"@ == primitive_place("/attributes/POSITION"@),
        "/meshes/0/primitives/0/attributes/NORMAL"@ == primitive_place("/attributes/NORMAL"@),
        "/meshes/0/primitives/0/indices"@ == primitive_place("/indices"@),
        "/meshes/0/primitives/0/mode"@ == primitive_place("/mode"@),
{
    reveal_strlit("/meshes/0/primitives/0");
    reveal_strlit("/attributes/POSITION");
    reveal_strlit("/attributes/NORMAL");
    reveal_strlit("/indices");
    reveal_strlit("/mode");
    reveal_strlit("/meshes/0/primitives/0/attributes/POSITION");
    reveal_strlit("/meshes/0/primitives/0/attributes/NORMAL");
    reveal_strlit("/meshes/0/primitives/0/indices");
    reveal_strlit("/meshes/0/primitives/0/mode");
    assert("/meshes/0/primitives/0/attributes/POSITION"@ =~= primitive_place(
        "/attributes/POSITION"@,
    ));
    assert("/meshes/0/primitives/0/attributes/NORMAL"@ =~= primitive_place("/attributes/NORMAL"@));
    assert("/meshes/0/primitives/0/indices"@ =~= primitive_place("/indices"@));
    assert("/meshes/0/primitives/0/mode"@ =~= primitive_place("/mode"@));
}

/// A document with the layout of a mesh written into it gives each accessor a
/// buffer view of its own that its items take up, one view after the other.
pub proof fn law_accessors_fill_their_views(m: MeshView, doc: Seq<u8>)
    requires
        fits(m),
        describes(doc, layout_numbers(m)),
    ensures
        tells_layout(doc, m),
        json_number_at(doc, "/buffers/0/byteLength"@) == Some(
            (12 * m.positions.len() + 12 * m.normals.len() + 4 * m.indices.len()) as u64,
        ),
{
    lemma_accessor_pointers();
    lemma_view_pointers();
    lemma_primitive_pointers();
    let numbers = layout_numbers(m);
    assert forall|i: int| 0 <= i < 16 implies json_number_at(doc, (#[trigger] numbers[i]).0)
        == Some(numbers[i].1) by {}
    assert(json_number_at(doc, numbers[0].0) == Some(0u64));
    assert(json_number_at(doc, numbers[1].0) == Some(1u64));
    assert(json_number_at(doc, numbers[2].0) == Some(2u64));
    assert(json_number_at(doc, numbers[3].0) == Some(numbers[3].1));
    assert(json_number_at(doc, numbers[4].0) == Some(numbers[4].1));
    assert(json_number_at(doc, numbers[5].0) == Some(numbers[5].1));
    assert(json_number_at(doc, numbers[6].0) == Some(numbers[6].1));
    assert(json_number_at(doc, numbers[7].0) == Some(numbers[7].1));
    assert(json_number_at(doc, numbers[8].0) == Some(numbers[8].1));
    assert(json_number_at(doc, numbers[9].0) == Some(numbers[9].1));
    assert(json_number_at(doc, numbers[10].0) == Some(numbers[10].1));
    assert(json_number_at(doc, numbers[11].0) == Some(numbers[11].1));
    assert(json_number_at(doc, numbers[12].0) == Some(numbers[12].1));
    assert(json_number_at(doc, numbers[13].0) == Some(numbers[13].1));
    assert(json_number_at(doc, numbers[14].0) == Some(numbers[14].1));
    assert(json_number_at(doc, numbers[15].0) == Some(numbers[15].1));
    assert(mesh_words(m).len() == 3 * m.positions.len() + 3 * m.normals.len() + m.indices.len());
    let n = m.positions.len();
    let k = m.indices.len();
    assert(component_size(5126) == 4 && component_size(5125) == 4);
    assert(fills_view(Some(n as u64), Some((12 * n) as u64), 12));
    assert(fills_view(Some(k as u64), Some((4 * k) as u64), 4));
    assert(ends_at(Some(0u64), Some((12 * n) as u64), Some((12 * n) as u64)));
    assert(ends_at(Some((12 * n) as u64), Some((12 * n) as u64), Some((24 * n) as u64)));
    if m.normals.len() == n {
        assert(ends_at(
            Some((24 * n) as u64),
            Some((4 * k) as u64),
            Some((4 * mesh_words(m).len()) as u64),
        ));
    }
}

/// What the numbers that are written into a template tell of a mesh.
proof fn lemma_written_tells(template: Seq<u8>, m: MeshView, doc: Seq<u8>)
    requires
        fits(m),
        json_document(doc),
        has_lists(doc),
        unpadded(doc) == doc,
        glb_of(padded(doc, 0x20), padded(word_bytes(mesh_words(m)), 0)).len() <= u32::MAX,
        forall|i: int|
            0 <= i < mesh_numbers(template, m).len() ==> json_number_at(
                doc,
                (#[trigger] mesh_numbers(template, m)[i]).0,
            ) == Some(mesh_numbers(template, m)[i].1),
    ensures
        describes(doc, layout_numbers(m)),
        tells_mesh(
            template,
            m,
            glb_of(padded(doc, 0x20), padded(word_bytes(mesh_words(m)), 0)),
        ),
{
    let numbers = mesh_numbers(template, m);
    let json = padded(doc, 0x20);
    let bin = word_bytes(mesh_words(m));
    assert(padded(bin, 0) =~= bin);
    assert forall|i: int| 0 <= i < 16 implies json_number_at(
        doc,
        (#[trigger] layout_numbers(m)[i]).0,
    ) == Some(layout_numbers(m)[i].1) by {
        assert(numbers[i] == layout_numbers(m)[i]);
    }
    if ready(template, type_numbers()) {
        assert forall|i: int| 0 <= i < 13 implies json_number_at(
            doc,
            (#[trigger] type_numbers()[i]).0,
        ) == Some(type_numbers()[i].1) by {
            assert(numbers[16 + i] == type_numbers()[i]);
        }
    }
    lemma_unpadded(doc, padding(doc.len() as int) as nat);
    assert(unpadded(json) == doc);
    assert(glb_of(json, bin).len() == 28 + json.len() + bin.len());
    law_chunks_come_back(json, bin);
    law_accessors_fill_their_views(m, doc);
    law_types_are_told(template, doc);
}

/// A document with the numbers written into it that are the same for every mesh
/// says what the numbers of the mesh are; it needs a number at each of the places
/// before.
pub proof fn law_types_are_told(template: Seq<u8>, doc: Seq<u8>)
    ensures
        can_tell_types(template) ==> ready(template, type_numbers()),
        (forall|i: int|
            0 <= i < type_numbers().len() ==> json_number_at(doc, (#[trigger] type_numbers()[i]).0)
                == Some(type_numbers()[i].1)) ==> tells_types(doc),
{
    lemma_accessor_pointers();
    lemma_view_pointers();
    lemma_primitive_pointers();
    let numbers = type_numbers();
    if forall|i: int|
        0 <= i < numbers.len() ==> json_number_at(doc, (#[trigger] numbers[i]).0) == Some(
            numbers[i].1,
        ) {
        assert(json_number_at(doc, numbers[0].0) == Some(numbers[0].1));
        assert(json_number_at(doc, numbers[1].0) == Some(numbers[1].1));
        assert(json_number_at(doc, numbers[2].0) == Some(numbers[2].1));
        assert(json_number_at(doc, numbers[3].0) == Some(numbers[3].1));
        assert(json_number_at(doc, numbers[4].0) == Some(numbers[4].1));
        assert(json_number_at(doc, numbers[5].0) == Some(numbers[5].1));
        assert(json_number_at(doc, numbers[6].0) == Some(numbers[6].1));
        assert(json_number_at(doc, numbers[7].0) == Some(numbers[7].1));
        assert(json_number_at(doc, numbers[8].0) == Some(numbers[8].1));
        assert(json_number_at(doc, numbers[9].0) == Some(numbers[9].1));
        assert(json_number_at(doc, numbers[10].0) == Some(numbers[10].1));
        assert(json_number_at(doc, numbers[11].0) == Some(numbers[11].1));
        assert(json_number_at(doc, numbers[12].0) == Some(numbers[12].1));
    }
    if can_tell_types(template) {
        assert forall|i: int| 0 <= i < numbers.len() implies json_number_at(
            template,
            (#[trigger] numbers[i]).0,
        ) is Some by {
            if i < 4 {
            } else if i < 8 {
            } else {
            }
        }
    }
}

/// What an accessor of the template says of itself, before its numbers are written.
pub open spec fn accessor_text(component_type: nat, sort: Seq<char>) -> Seq<char> {
    "{\"bufferView\":0,\"componentType\":"@ + decimal_of(component_type)
        + ",\"count\":0,\"type\":\""@ + sort + "\""@
}

proof fn lemma_tail_accessors()
    ensures
        skeleton_tail() == "},"@ + accessor_text(5126, "VEC3"@) + "},"@ + accessor_text(
            5125,
            "SCALAR"@,
        ) + "}]}"@,
{
    reveal_strlit("},{\"bufferView\":0,\"componentType\":5126,\"count\":0,\"type\":\"VEC3\"},{\"bufferView\":0,\"componentType\":5125,\"count\":0,\"type\":\"SCALAR\"}]}");
    reveal_strlit("{\"bufferView\":0,\"componentType\":");
    reveal_strlit(",\"count\":0,\"type\":\"");
    reveal_strlit("\"");
    reveal_strlit("},");
    reveal_strlit("}]}");
    reveal_strlit("VEC3");
    reveal_strlit("SCALAR");
    reveal_with_fuel(decimal_of, 5);
    assert(decimal_of(5126) =~= seq!['5', '1', '2', '6']);
    assert(decimal_of(5125) =~= seq!['5', '1', '2', '5']);
    assert(skeleton_tail() =~= "},"@ + accessor_text(5126, "VEC3"@) + "},"@ + accessor_text(
        5125,
        "SCALAR"@,
    ) + "}]}"@);
}

proof fn lemma_head_accessor()
    ensures
        exists|front: Seq<char>| #[trigger]
            (front + (accessor_text(5126, "VEC3"@) + ",\"min\":"@)) == skeleton_head(),
        "{\"asset\":{\"version\":\"2.0\","@.is_prefix_of(skeleton_head()),
{
    reveal_strlit("{\"asset\":{\"version\":\"2.0\",\"generator\":\"vectorflow-sgs geomstore\"},\"scene\":0,\"scenes\":[{\"nodes\":[0]}],\"nodes\":[{\"mesh\":0}],\"meshes\":[{\"primitives\":[{\"attributes\":{\"POSITION\":0,\"NORMAL\":0},\"indices\":0,\"mode\":4}]}],\"buffers\":[{\"byteLength\":0}],\"bufferViews\":[{\"buffer\":0,\"byteOffset\":0,\"byteLength\":0,\"target\":34962},{\"buffer\":0,\"byteOffset\":0,\"byteLength\":0,\"target\":34962},{\"buffer\":0,\"byteOffset\":0,\"byteLength\":0,\"target\":34963}],\"accessors\":[{\"bufferView\":0,\"componentType\":5126,\"count\":0,\"type\":\"VEC3\",\"min\":");
    reveal_strlit("{\"asset\":{\"version\":\"2.0\",");
    reveal_strlit("{\"bufferView\":0,\"componentType\":");
    reveal_strlit(",\"count\":0,\"type\":\"");
    reveal_strlit("\"");
    reveal_strlit("VEC3");
    reveal_strlit(",\"min\":");
    reveal_with_fuel(decimal_of, 5);
    assert(decimal_of(5126) =~= seq!['5', '1', '2', '6']);
    let last = accessor_text(5126, "VEC3"@) + ",\"min\":"@;
    let head = skeleton_head();
    let front = head.take(head.len() - last.len());
    assert(front + last =~= head);
    assert("{\"asset\":{\"version\":\"2.0\","@ =~= head.take(
        "{\"asset\":{\"version\":\"2.0\","@.len() as int,
    ));
}

/// The template has three accessors: vectors of floats with their bounds, vectors of
/// floats, and single unsigned integers of four bytes. It names its version of glTF
/// first.
pub proof fn law_template_has_its_accessors(min_json: Seq<char>, max_json: Seq<char>)
    ensures
        skeleton(min_json, max_json) == skeleton_head() + min_json + ",\"max\":"@ + max_json
            + "},"@ + accessor_text(5126, "VEC3"@) + "},"@ + accessor_text(5125, "SCALAR"@)
            + "}]}"@,
        exists|front: Seq<char>| #[trigger]
            (front + (accessor_text(5126, "VEC3"@) + ",\"min\":"@)) == skeleton_head(),
        "{\"asset\":{\"version\":\"2.0\","@.is_prefix_of(skeleton_head()),
{
    lemma_tail_accessors();
    lemma_head_accessor();
    assert(skeleton(min_json, max_json) =~= skeleton_head() + min_json + ",\"max\":"@ + max_json
        + "},"@ + accessor_text(5126, "VEC3"@) + "},"@ + accessor_text(5125, "SCALAR"@) + "}]}"@);
}

/// A number of its own for each of the places of the numbers that are the same for
/// every mesh, and none for the others.
spec fn type_code(p: Seq<char>) -> int {
    if p[1] == 'm' {
        if p[23] == 'm' {
            3
        } else {
            -1
        }
    } else if p[1] == 'a' {
        let k: int = if p[11] == '0' {
            0
        } else if p[11] == '1' {
            1
        } else {
            2
        };
        if p[15] == 'm' {
            k
        } else {
            -1
        }
    } else if p[1] == 's' {
        if p.len() == 6 {
            10
        } else {
            11
        }
    } else if p[1] == 'n' {
        12
    } else if p[7] == 's' {
        -1
    } else {
        let k: int = if p[13] == '0' {
            0
        } else if p[13] == '1' {
            1
        } else {
            2
        };
        if p[15] == 't' {
            4 + k
        } else if p[16] == 'u' {
            7 + k
        } else {
            -1
        }
    }
}

proof fn lemma_types_apart()
    ensures
        forall|i: int|
            0 <= i < 13 ==> plain((#[trigger] type_numbers()[i]).0) && type_code(
                type_numbers()[i].0,
            ) == i,
{
    let numbers = type_numbers();
    reveal_strlit("/componentType");
    reveal_strlit("/mode");
    reveal_strlit("/target");
    reveal_strlit("/buffer");
    reveal_strlit("/scene");
    reveal_strlit("/scenes/0/nodes/0");
    reveal_strlit("/nodes/0/mesh");
    lemma_accessor_place(0, "/componentType"@);
    lemma_accessor_place(1, "/componentType"@);
    lemma_accessor_place(2, "/componentType"@);
    assert(type_code(numbers[0].0) == 0);
    assert(type_code(numbers[1].0) == 1);
    assert(type_code(numbers[2].0) == 2);
    lemma_primitive_place("/mode"@);
    assert(type_code(numbers[3].0) == 3);
    lemma_view_place(0, "/target"@);
    lemma_view_place(1, "/target"@);
    lemma_view_place(2, "/target"@);
    assert(type_code(numbers[4].0) == 4);
    assert(type_code(numbers[5].0) == 5);
    assert(type_code(numbers[6].0) == 6);
    lemma_view_place(0, "/buffer"@);
    lemma_view_place(1, "/buffer"@);
    lemma_view_place(2, "/buffer"@);
    assert(type_code(numbers[7].0) == 7);
    assert(type_code(numbers[8].0) == 8);
    assert(type_code(numbers[9].0) == 9);
    assert(type_code(numbers[10].0) == 10);
    assert(type_code(numbers[11].0) == 11);
    assert(type_code(numbers[12].0) == 12);
    assert(plain("/scene"@) && plain("/scenes/0/nodes/0"@) && plain("/nodes/0/mesh"@));
}

proof fn lemma_layout_not_types(m: MeshView)
    ensures
        forall|i: int| 0 <= i < 16 ==> type_code((#[trigger] layout_numbers(m)[i]).0) == -1,
{
    let numbers = layout_numbers(m);
    reveal_strlit("/attributes/POSITION");
    reveal_strlit("/attributes/NORMAL");
    reveal_strlit("/indices");
    reveal_strlit("/bufferView");
    reveal_strlit("/count");
    reveal_strlit("/byteOffset");
    reveal_strlit("/byteLength");
    reveal_strlit("/buffers/0/byteLength");
    lemma_primitive_place("/attributes/POSITION"@);
    lemma_primitive_place("/attributes/NORMAL"@);
    lemma_primitive_place("/indices"@);
    assert(type_code(numbers[0].0) == -1);
    assert(type_code(numbers[1].0) == -1);
    assert(type_code(numbers[2].0) == -1);
    lemma_accessor_place(0, "/bufferView"@);
    lemma_accessor_place(0, "/count"@);
    lemma_accessor_place(1, "/bufferView"@);
    lemma_accessor_place(1, "/count"@);
    lemma_accessor_place(2, "/bufferView"@);
    lemma_accessor_place(2, "/count"@);
    assert(type_code(numbers[3].0) == -1);
    assert(type_code(numbers[4].0) == -1);
    assert(type_code(numbers[5].0) == -1);
    assert(type_code(numbers[6].0) == -1);
    assert(type_code(numbers[7].0) == -1);
    assert(type_code(numbers[8].0) == -1);
    lemma_view_place(0, "/byteOffset"@);
    lemma_view_place(0, "/byteLength"@);
    lemma_view_place(1, "/byteOffset"@);
    lemma_view_place(1, "/byteLength"@);
    lemma_view_place(2, "/byteOffset"@);
    lemma_view_place(2, "/byteLength"@);
    assert(type_code(numbers[9].0) == -1);
    assert(type_code(numbers[10].0) == -1);
    assert(type_code(numbers[11].0) == -1);
    assert(type_code(numbers[12].0) == -1);
    assert(type_code(numbers[13].0) == -1);
    assert(type_code(numbers[14].0) == -1);
    assert(type_code(numbers[15].0) == -1);
}

proof fn lemma_numbers_apart(template: Seq<u8>, m: MeshView)
    ensures
        apart(mesh_numbers(template, m)),
{
    lemma_places_apart(m);
    lemma_types_apart();
    lemma_layout_not_types(m);
    let a = layout_numbers(m);
    let b = type_numbers();
    let all = mesh_numbers(template, m);
    if ready(template, type_numbers()) {
        assert forall|i: int| 0 <= i < all.len() implies plain((#[trigger] all[i]).0) by {
            if i < 16 {
                assert(all[i] == a[i]);
            } else {
                assert(all[i] == b[i - 16]);
            }
        }
        assert forall|i: int, j: int| 0 <= i < j < all.len() implies (#[trigger] all[i]).0 != (
        #[trigger] all[j]).0 by {
            if j < 16 {
                assert(all[i] == a[i] && all[j] == a[j]);
            } else if i < 16 {
                assert(all[i] == a[i] && all[j] == b[j - 16]);
                assert(type_code(a[i].0) == -1);
                assert(type_code(b[j - 16].0) == j - 16);
            } else {
                assert(all[i] == b[i - 16] && all[j] == b[j - 16]);
                assert(type_code(b[i - 16].0) == i - 16);
                assert(type_code(b[j - 16].0) == j - 16);
            }
        }
    }
}

// ---------------------------------------------------------------------------
// The store.

/// A mesh with the bounds of its positions as JSON arrays.
#[derive(Debug, Clone)]
pub struct LoadedMesh {
    pub mesh: Mesh,
    pub min_json: String,
    pub max_json: String,
}

impl LoadedMesh {
    /// The GLB file of the mesh.
    pub open spec fn glb(&self) -> Option<Seq<u8>> {
        encoded(self.mesh@, self.min_json@, self.max_json@)
    }
}

/// A way to turn a geometry handle into a mesh; `Ok(None)` where there is none on
/// disk.
pub trait MeshLoader {
    /// What the loader may return for a handle: anything, unless it says more.
    open spec fn may_load(
        &self,
        geom: GeomRefView,
        r: Result<Option<LoadedMesh>, LoadError>,
    ) -> bool {
        true
    }

    fn load(&self, geom: &GeomRef) -> (r: Result<Option<LoadedMesh>, LoadError>)
        ensures
            self.may_load(geom@, r),
    ;
}

/// A loader for synthetic worlds: it never has a mesh.
pub struct StubMeshLoader;

impl MeshLoader for StubMeshLoader {
    open spec fn may_load(
        &self,
        geom: GeomRefView,
        r: Result<Option<LoadedMesh>, LoadError>,
    ) -> bool {
        r == Ok::<Option<LoadedMesh>, LoadError>(None)
    }

    fn load(&self, _geom: &GeomRef) -> (r: Result<Option<LoadedMesh>, LoadError>) {
        Ok(None)
    }
}

/// The model of a [`GeomStore`].
pub struct StoreView {
    /// The handle that a content hash was first seen with.
    pub index: Map<Seq<char>, GeomRefView>,
    /// The encoded files.
    pub cache: Map<Seq<char>, Seq<u8>>,
    pub load_calls: nat,
}

/// A handle registered: the first one of a content hash counts, and one without a
/// hash does not.
pub open spec fn registered(
    index: Map<Seq<char>, GeomRefView>,
    g: GeomRefView,
) -> Map<Seq<char>, GeomRefView> {
    if g.content_hash.len() == 0 || index.contains_key(g.content_hash) {
        index
    } else {
        index.insert(g.content_hash, g)
    }
}

/// The handles of the listed entities registered.
pub open spec fn all_registered(
    index: Map<Seq<char>, GeomRefView>,
    lsg: LsgView,
    ids: Seq<u64>,
) -> Map<Seq<char>, GeomRefView>
    decreases ids.len(),
{
    if ids.len() == 0 {
        index
    } else {
        let init = all_registered(index, lsg, ids.drop_last());
        match lsg.entities[ids.last()].geom_ref {
            Some(g) => registered(init, g),
            None => init,
        }
    }
}

/// Meshes by content hash, encoded once.
pub struct GeomStore<L: MeshLoader> {
    loader: L,
    index: StringHashMap<GeomRef>,
    cache: StringHashMap<Arc<Vec<u8>>>,
    load_calls: usize,
}

impl<L: MeshLoader> View for GeomStore<L> {
    type V = StoreView;

    closed spec fn view(&self) -> StoreView {
        StoreView {
            index: crate::model::map_views(self.index@),
            cache: Map::new(
                |k: Seq<char>| self.cache@.contains_key(k),
                |k: Seq<char>| self.cache@[k]@,
            ),
            load_calls: self.load_calls as nat,
        }
    }
}

impl<L: MeshLoader> GeomStore<L> {
    /// The loader.
    pub closed spec fn source(&self) -> L {
        self.loader
    }

    pub fn new(loader: L) -> (s: Self)
        ensures
            s.source() == loader,
            s@ == (StoreView { index: Map::empty(), cache: Map::empty(), load_calls: 0 }),
    {
        broadcast use group_models;

        let s = GeomStore {
            loader,
            index: StringHashMap::new(),
            cache: StringHashMap::new(),
            load_calls: 0,
        };
        proof {
            assert(s@.cache =~= Map::empty());
        }
        s
    }

    /// A store that knows every content hash of the index.
    pub fn from_lsg(loader: L, lsg: &Lsg) -> (s: Self)
        ensures
            s.source() == loader,
            s@ == (StoreView {
                index: all_registered(Map::empty(), lsg@, ascending(lsg@.entities.dom())),
                cache: Map::empty(),
                load_calls: 0,
            }),
    {
        let mut store = GeomStore::new(loader);
        store.index_from_lsg(lsg);
        store
    }

    /// Registers the handles of all entities, in ascending order of their ids.
    pub fn index_from_lsg(&mut self, lsg: &Lsg)
        ensures
            final(self).source() == old(self).source(),
            final(self)@ == (StoreView {
                index: all_registered(
                    old(self)@.index,
                    lsg@,
                    ascending(lsg@.entities.dom()),
                ),
                ..old(self)@
            }),
    {
        let all = lsg.entities();
        let ghost ids = ascending(lsg@.entities.dom());
        let mut i: usize = 0;
        proof {
            assert(ids.take(0) =~= Seq::empty());
        }
        while i < all.len()
            invariant
                i <= all@.len(),
                all@.len() == ids.len(),
                forall|j: int|
                    0 <= j < all@.len() ==> (#[trigger] all@[j])@ == lsg@.entities[ids[j]],
                self.source() == old(self).source(),
                self@ == (StoreView {
                    index: all_registered(old(self)@.index, lsg@, ids.take(i as int)),
                    ..old(self)@
                }),
            decreases all@.len() - i,
        {
            proof {
                assert(ids.take(i + 1).drop_last() =~= ids.take(i as int));
                assert(ids.take(i + 1).last() == ids[i as int]);
                assert(all@[i as int]@ == lsg@.entities[ids[i as int]]);
            }
            if let Some(g) = &all[i].geom_ref {
                self.register(g.clone());
            }
            i = i + 1;
        }
        proof {
            assert(ids.take(i as int) =~= ids);
        }
    }

    /// Registers a handle under its content hash.
    pub fn register(&mut self, geom: GeomRef)
        ensures
            final(self).source() == old(self).source(),
            final(self)@ == (StoreView {
                index: registered(old(self)@.index, geom@),
                ..old(self)@
            }),
    {
        broadcast use group_models;

        if geom.content_hash.as_str().is_empty() {
            return ;
        }
        if !self.index.contains_key(geom.content_hash.as_str()) {
            self.index.insert(geom.content_hash.clone(), geom);
        }
        proof {
            assert(self@.cache =~= old(self)@.cache);
        }
    }

    /// The GLB file of a content hash, loaded and encoded on the first call. There
    /// is none for a hash that is empty or unknown, or where the loader has no
    /// mesh; a mesh whose bounds do not read back is an error.
    pub fn fetch(&mut self, content_hash: &str) -> (r: Result<Option<Arc<Vec<u8>>>, LoadError>)
        requires
            old(self)@.load_calls < usize::MAX,
        ensures
            final(self).source() == old(self).source(),
            final(self)@.index == old(self)@.index,
            ({
                let v = old(self)@;
                let w = final(self)@;
                let h = content_hash@;
                if h.len() > 0 && v.cache.contains_key(h) {
                    w == v && (r matches Ok(Some(b)) && b@ == v.cache[h])
                } else if h.len() == 0 || !v.index.contains_key(h) {
                    w == v && r == Ok::<Option<Arc<Vec<u8>>>, LoadError>(None)
                } else {
                    &&& w.load_calls == v.load_calls + 1
                    &&& exists|l: Result<Option<LoadedMesh>, LoadError>| #[trigger]
                        old(self).source().may_load(v.index[h], l) && fetched(v, w, h, l, r)
                }
            }),
    {
        broadcast use group_models;

        if content_hash.is_empty() {
            return Ok(None);
        }
        if let Some(bytes) = self.cache.get(content_hash) {
            return Ok(Some(share(bytes)));
        }
        let geom = match self.index.get(content_hash) {
            Some(g) => g.clone(),
            None => return Ok(None),
        };
        self.load_calls = self.load_calls + 1;
        let loaded = self.loader.load(&geom);
        let ghost l = loaded;
        proof {
            assert(self@.cache =~= old(self)@.cache);
            assert(old(self).source().may_load(old(self)@.index[content_hash@], l));
        }
        match loaded {
            Err(e) => Err(e),
            Ok(None) => Ok(None),
            Ok(Some(m)) => {
                if !mesh_fits(&m.mesh) {
                    return Err(LoadError { message: "mesh is too large".to_owned() });
                }
                match encode_glb(&m.mesh, m.min_json.as_str(), m.max_json.as_str()) {
                    None => Err(
                        LoadError { message: "mesh bounds are not JSON".to_owned() },
                    ),
                    Some(out) => {
                        let bytes = Arc::new(out);
                        self.cache.insert(content_hash.to_owned(), share(&bytes));
                        proof {
                            assert(self@.cache =~= old(self)@.cache.insert(
                                content_hash@,
                                bytes@,
                            ));
                        }
                        Ok(Some(bytes))
                    },
                }
            },
        }
    }

    /// How many content hashes are known.
    pub fn known_hashes(&self) -> (n: usize)
        ensures
            n == self@.index.dom().len(),
    {
        proof {
            assert(self@.index.dom() =~= self.index@.dom());
        }
        self.index.len()
    }

    /// How many meshes have been encoded.
    pub fn cached_count(&self) -> (n: usize)
        ensures
            n == self@.cache.dom().len(),
    {
        proof {
            assert(self@.cache.dom() =~= self.cache@.dom());
        }
        self.cache.len()
    }

    /// How often the loader has been called.
    pub fn load_calls(&self) -> (n: usize)
        ensures
            n == self@.load_calls,
    {
        self.load_calls
    }
}

/// Do the sizes of a mesh fit the machine?
fn mesh_fits(mesh: &Mesh) -> (b: bool)
    ensures
        b == fits(mesh@),
{
    let total: u128 = 24 * mesh.positions.len() as u128 + 12 * mesh.normals.len() as u128 + 4
        * mesh.indices.len() as u128;
    total <= usize::MAX as u128
}

/// What a store returns and keeps, for each thing that the loader may return. A file
/// decodes to the mesh that was loaded.
pub open spec fn fetched(
    v: StoreView,
    w: StoreView,
    h: Seq<char>,
    l: Result<Option<LoadedMesh>, LoadError>,
    r: Result<Option<Arc<Vec<u8>>>, LoadError>,
) -> bool {
    match l {
        Err(e) => r == Err::<Option<Arc<Vec<u8>>>, LoadError>(e) && w.cache == v.cache,
        Ok(None) => r == Ok::<Option<Arc<Vec<u8>>>, LoadError>(None) && w.cache == v.cache,
        Ok(Some(m)) => if fits(m.mesh@) && m.glb() is Some {
            r matches Ok(Some(b)) && {
                &&& Some(b@) == m.glb()
                &&& w.cache == v.cache.insert(h, b@)
                &&& m.mesh@.normals.len() == m.mesh@.positions.len() && b@.len() <= u32::MAX
                    ==> decoded(b@) == Ok::<Option<MeshView>, GlbError>(Some(m.mesh@))
                &&& b@.len() <= u32::MAX ==> tells_mesh(
                    encode_utf8(skeleton(m.min_json@, m.max_json@)),
                    m.mesh@,
                    b@,
                )
            }
        } else {
            &&& w.cache == v.cache
            &&& r matches Err(e) && e.message@ == if fits(m.mesh@) {
                "mesh bounds are not JSON"@
            } else {
                "mesh is too large"@
            }
        },
    }
}

// ---------------------------------------------------------------------------
// What the bytes of a file are.

/// A word is written with its least significant byte first, and read back so.
pub proof fn law_words_are_little_endian(words: Seq<u32>, i: int, b: Seq<u8>, off: int)
    requires
        0 <= i < words.len(),
        0 <= off,
        off + 4 <= b.len(),
    ensures
        word_bytes(words).len() == 4 * words.len(),
        word_bytes(words)[4 * i] == words[i] % 256,
        word_bytes(words)[4 * i + 1] == words[i] / 256 % 256,
        word_bytes(words)[4 * i + 2] == words[i] / 65536 % 256,
        word_bytes(words)[4 * i + 3] == words[i] / 16777216,
        word_at(b, off) == b[off] + 256 * b[off + 1] + 65536 * b[off + 2] + 16777216 * b[off + 3],
{
    assert((4 * i) / 4 == i && (4 * i) % 4 == 0);
    assert((4 * i + 1) / 4 == i && (4 * i + 1) % 4 == 1);
    assert((4 * i + 2) / 4 == i && (4 * i + 2) % 4 == 2);
    assert((4 * i + 3) / 4 == i && (4 * i + 3) % 4 == 3);
}

/// Padding adds fewer than four bytes, all of them the filler, and comes to a multiple
/// of four.
pub proof fn law_padding_fills_up(b: Seq<u8>, fill: u8)
    ensures
        padded(b, fill).len() % 4 == 0,
        b.len() <= padded(b, fill).len() < b.len() + 4,
        b.is_prefix_of(padded(b, fill)),
        forall|i: int| b.len() <= i < padded(b, fill).len() ==> #[trigger] padded(b, fill)[i] == fill,
{
    assert(padded(b, fill).take(b.len() as int) =~= b);
}

/// Three words that follow each other in a binary part.
proof fn lemma_three_words(words: Seq<u32>, k: int, off: int)
    requires
        0 <= k,
        k + 3 <= words.len(),
        off == 4 * k,
    ensures
        word_at(word_bytes(words), off) == words[k],
        word_at(word_bytes(words), off + 4) == words[k + 1],
        word_at(word_bytes(words), off + 8) == words[k + 2],
{
    lemma_vec_at(words, k);
}

/// The binary part of a mesh starts with its positions, each as its three numbers, one
/// after the other.
pub proof fn law_positions_lie_first(m: MeshView, i: int)
    requires
        0 <= i < m.positions.len(),
    ensures
        word_at(word_bytes(mesh_words(m)), 12 * i) == m.positions[i].x,
        word_at(word_bytes(mesh_words(m)), 12 * i + 4) == m.positions[i].y,
        word_at(word_bytes(mesh_words(m)), 12 * i + 8) == m.positions[i].z,
{
    assert(mesh_words(m).len() >= 3 * m.positions.len());
    lemma_mesh_words(m, i);
    lemma_three_words(mesh_words(m), 3 * i, 12 * i);
}

/// Behind the positions of a mesh lie its normals, each as its three numbers.
pub proof fn law_normals_lie_behind_positions(m: MeshView, i: int)
    requires
        0 <= i < m.normals.len(),
    ensures
        ({
            let off = 12 * m.positions.len() + 12 * i;
            &&& word_at(word_bytes(mesh_words(m)), off) == m.normals[i].x
            &&& word_at(word_bytes(mesh_words(m)), off + 4) == m.normals[i].y
            &&& word_at(word_bytes(mesh_words(m)), off + 8) == m.normals[i].z
        }),
{
    assert(mesh_words(m).len() >= 3 * m.positions.len() + 3 * m.normals.len());
    lemma_mesh_words(m, i);
    lemma_three_words(
        mesh_words(m),
        3 * m.positions.len() + 3 * i,
        12 * m.positions.len() + 12 * i,
    );
}

/// Behind the normals of a mesh lie its indices, and nothing behind them.
pub proof fn law_indices_lie_last(m: MeshView, i: int)
    requires
        0 <= i < m.indices.len(),
    ensures
        word_bytes(mesh_words(m)).len() == 12 * m.positions.len() + 12 * m.normals.len() + 4
            * m.indices.len(),
        word_at(
            word_bytes(mesh_words(m)),
            12 * m.positions.len() + 12 * m.normals.len() + 4 * i,
        ) == m.indices[i],
{
    let k = 3 * m.positions.len() + 3 * m.normals.len() + i;
    assert(mesh_words(m).len() == 3 * m.positions.len() + 3 * m.normals.len() + m.indices.len());
    lemma_mesh_words(m, i);
    lemma_word_bytes(mesh_words(m), k);
    assert(4 * k == 12 * m.positions.len() + 12 * m.normals.len() + 4 * i);
}

/// The words in front of the chunks of a file.
spec fn frame_head(json: Seq<u8>, bin: Seq<u8>) -> Seq<u32> {
    seq![
        0x4654_6c67u32,
        2u32,
        (28 + json.len() + bin.len()) as u32,
        json.len() as u32,
        0x4e4f_534au32,
    ]
}

/// The words between the chunks of a file.
spec fn frame_middle(bin: Seq<u8>) -> Seq<u32> {
    seq![bin.len() as u32, 0x004e_4942u32]
}

proof fn lemma_frame_parts(json: Seq<u8>, bin: Seq<u8>)
    ensures
        ({
            let h = word_bytes(frame_head(json, bin));
            let t = word_bytes(frame_middle(bin));
            &&& h.len() == 20 && t.len() == 8
            &&& glb_of(json, bin) == Seq::<u8>::empty() + h + (json + (t + bin))
            &&& glb_of(json, bin) == (h + json) + t + bin
        }),
{
    let h = word_bytes(frame_head(json, bin));
    let t = word_bytes(frame_middle(bin));
    assert(glb_of(json, bin) =~= Seq::<u8>::empty() + h + (json + (t + bin)));
    assert(glb_of(json, bin) =~= (h + json) + t + bin);
}

proof fn lemma_frame_words(json: Seq<u8>, bin: Seq<u8>)
    requires
        28 + json.len() + bin.len() <= u32::MAX,
    ensures
        ({
            let g = glb_of(json, bin);
            &&& word_at(g, 4) == 2
            &&& word_at(g, 8) == 28 + json.len() + bin.len()
            &&& word_at(g, 12) == json.len()
            &&& word_at(g, 20 + json.len() as int) == bin.len()
        }),
{
    let head = frame_head(json, bin);
    let mid = frame_middle(bin);
    let h = word_bytes(head);
    let t = word_bytes(mid);
    lemma_frame_parts(json, bin);
    lemma_word_bytes(head, 1);
    lemma_word_bytes(head, 2);
    lemma_word_bytes(head, 3);
    lemma_word_bytes(mid, 0);
    lemma_word_in(Seq::<u8>::empty(), h, json + (t + bin), 4);
    lemma_word_in(Seq::<u8>::empty(), h, json + (t + bin), 8);
    lemma_word_in(Seq::<u8>::empty(), h, json + (t + bin), 12);
    lemma_word_in(h + json, t, bin, 0);
}

proof fn lemma_frame_names(json: Seq<u8>, bin: Seq<u8>)
    ensures
        ({
            let h = word_bytes(frame_head(json, bin));
            let t = word_bytes(frame_middle(bin));
            &&& h[0] == 0x67 && h[1] == 0x6c && h[2] == 0x54 && h[3] == 0x46
            &&& h[16] == 0x4a && h[17] == 0x53 && h[18] == 0x4f && h[19] == 0x4e
            &&& t[4] == 0x42 && t[5] == 0x49 && t[6] == 0x4e && t[7] == 0
        }),
{
    let head = frame_head(json, bin);
    let mid = frame_middle(bin);
    let four = seq![0u8, 0u8, 0u8, 0u8];
    law_words_are_little_endian(head, 0, four, 0);
    law_words_are_little_endian(head, 4, four, 0);
    law_words_are_little_endian(mid, 1, four, 0);
}

/// A file is framed as GLB: it starts with `glTF`, version two and its own length, and
/// has a chunk named `JSON` and one named `BIN`, each behind its length.
pub proof fn law_files_are_framed(json: Seq<u8>, bin: Seq<u8>)
    requires
        28 + json.len() + bin.len() <= u32::MAX,
    ensures
        ({
            let g = glb_of(json, bin);
            let n = 20 + json.len() as int;
            &&& g.len() == 28 + json.len() + bin.len()
            &&& g[0] == 'g' as u8 && g[1] == 'l' as u8 && g[2] == 'T' as u8 && g[3] == 'F' as u8
            &&& word_at(g, 4) == 2
            &&& word_at(g, 8) == g.len()
            &&& word_at(g, 12) == json.len()
            &&& g[16] == 'J' as u8 && g[17] == 'S' as u8 && g[18] == 'O' as u8 && g[19] == 'N' as u8
            &&& g.subrange(20, n) == json
            &&& word_at(g, n) == bin.len()
            &&& g[n + 4] == 'B' as u8 && g[n + 5] == 'I' as u8 && g[n + 6] == 'N' as u8 && g[n + 7]
                == 0
            &&& g.subrange(n + 8, g.len() as int) == bin
        }),
{
    let g = glb_of(json, bin);
    let n = 20 + json.len() as int;
    let h = word_bytes(frame_head(json, bin));
    let t = word_bytes(frame_middle(bin));
    lemma_frame_parts(json, bin);
    lemma_frame_words(json, bin);
    lemma_frame_names(json, bin);
    assert(g[0] == h[0] && g[1] == h[1] && g[2] == h[2] && g[3] == h[3]);
    assert(g[16] == h[16] && g[17] == h[17] && g[18] == h[18] && g[19] == h[19]);
    assert(g[n + 4] == t[4] && g[n + 5] == t[5] && g[n + 6] == t[6] && g[n + 7] == t[7]);
    assert(g.subrange(20, n) =~= json);
    assert(g.subrange(n + 8, g.len() as int) =~= bin);
}

/// What is wrong with a layout is told: no document, then no accessors, no buffer
/// views, no positions, no indices. Where none of this is so, a mesh is found where all
/// that it points to is there.
pub proof fn law_bad_layouts_are_refused(l: Layout, len: nat)
    ensures
        ({
            let r = parts_of(l, len);
            &&& !l.document ==> r == Err::<Option<Parts>, GlbError>(GlbError::BadJson)
            &&& l.document && l.accessors is None ==> r == Err::<Option<Parts>, GlbError>(
                GlbError::NoAccessors,
            )
            &&& l.document && l.accessors is Some && l.views is None ==> r == Err::<
                Option<Parts>,
                GlbError,
            >(GlbError::NoBufferViews)
            &&& l.document && l.accessors is Some && l.views is Some && l.positions is None ==> r
                == Err::<Option<Parts>, GlbError>(GlbError::NoPosition)
            &&& l.document && l.accessors is Some && l.views is Some && l.positions is Some
                && l.indices is None ==> r == Err::<Option<Parts>, GlbError>(GlbError::NoIndices)
            &&& r matches Ok(Some(p)) ==> {
                &&& p.positions.count == 0 || p.positions.base + 12 * p.positions.count <= len
                &&& p.indices.count == 0 || p.indices.base + 4 * p.indices.count <= len
                &&& p.normals is Some <==> l.normals is Some
                &&& p.normals matches Some(n) ==> n.count == 0 || n.base + 12 * n.count <= len
                &&& ((l.positions->0).accessor as usize) < l.accessors->0
                &&& ((l.indices->0).accessor as usize) < l.accessors->0
                &&& (l.positions->0).view is Some && (l.indices->0).view is Some
            }
        }),
{
}

/// Where the items of an accessor lie is where its buffer view starts, and at the start
/// where it does not say; there are as many as it counts, and none where it does not
/// say.
pub proof fn law_items_lie_where_their_view_starts(
    s: Slot,
    accessors: usize,
    views: usize,
    size: int,
    len: nat,
)
    requires
        s.offset matches Some(n) ==> n <= usize::MAX,
        s.count matches Some(n) ==> n <= usize::MAX,
    ensures
        part_of(s, accessors, views, size, len) matches Ok(Some(p)) ==> {
            &&& s.offset matches Some(n) ==> p.base == n
            &&& s.offset is None ==> p.base == 0
            &&& s.count matches Some(n) ==> p.count == n
            &&& s.count is None ==> p.count == 0
        },
        (s.accessor as usize) < accessors && s.view is None ==> part_of(
            s,
            accessors,
            views,
            size,
            len,
        ) == Err::<Option<Part>, GlbError>(GlbError::NoBufferView),
{
}

// ---------------------------------------------------------------------------
// What a store knows.

/// A store knows the content hashes that it was told, each by the first handle that has
/// it; a handle without a hash is not kept.
pub proof fn law_first_handle_counts(
    index: Map<Seq<char>, GeomRefView>,
    g: GeomRefView,
    hash: Seq<char>,
)
    ensures
        ({
            let w = registered(index, g);
            &&& index.contains_key(hash) ==> w.contains_key(hash) && w[hash] == index[hash]
            &&& !index.contains_key(hash) && hash.len() > 0 && hash == g.content_hash
                ==> w.contains_key(hash) && w[hash] == g
            &&& !index.contains_key(hash) && !(hash.len() > 0 && hash == g.content_hash)
                ==> !w.contains_key(hash)
        }),
{
}

/// An entity refers to geometry with a content hash.
pub open spec fn refers_to(lsg: LsgView, k: u64, hash: Seq<char>) -> bool {
    lsg.entities[k].geom_ref matches Some(g) && g.content_hash == hash
}

/// After entities are registered a hash is known exactly where it was before or one of
/// them refers to it.
pub proof fn law_hashes_of_entities_are_known(
    index: Map<Seq<char>, GeomRefView>,
    lsg: LsgView,
    ids: Seq<u64>,
    hash: Seq<char>,
)
    requires
        hash.len() > 0,
    ensures
        all_registered(index, lsg, ids).contains_key(hash) <==> index.contains_key(hash) || exists|
            i: int,
        |
            0 <= i < ids.len() && refers_to(lsg, #[trigger] ids[i], hash),
    decreases ids.len(),
{
    if ids.len() > 0 {
        let init = ids.drop_last();
        let n = ids.len() - 1;
        law_hashes_of_entities_are_known(index, lsg, init, hash);
        if all_registered(index, lsg, init).contains_key(hash) && !index.contains_key(hash) {
            let i = choose|i: int| 0 <= i < init.len() && refers_to(lsg, #[trigger] init[i], hash);
            assert(ids[i] == init[i]);
        }
        if refers_to(lsg, ids.last(), hash) {
            assert(refers_to(lsg, ids[n], hash));
        } else if exists|i: int| 0 <= i < ids.len() && refers_to(lsg, #[trigger] ids[i], hash) {
            let i = choose|i: int| 0 <= i < ids.len() && refers_to(lsg, #[trigger] ids[i], hash);
            assert(i < n);
            assert(init[i] == ids[i]);
        }
    }
}

/// A hash is known by the handle of the first entity that refers to it, where it was
/// not known before.
pub proof fn law_first_entity_gives_the_handle(
    index: Map<Seq<char>, GeomRefView>,
    lsg: LsgView,
    ids: Seq<u64>,
    hash: Seq<char>,
    i: int,
)
    requires
        hash.len() > 0,
        !index.contains_key(hash),
        0 <= i < ids.len(),
        refers_to(lsg, ids[i], hash),
        forall|j: int| 0 <= j < i ==> !refers_to(lsg, #[trigger] ids[j], hash),
    ensures
        all_registered(index, lsg, ids)[hash] == lsg.entities[ids[i]].geom_ref->0,
    decreases ids.len(),
{
    let init = ids.drop_last();
    law_hashes_of_entities_are_known(index, lsg, init, hash);
    if i < init.len() {
        assert(init[i] == ids[i]);
        assert forall|j: int| 0 <= j < i implies !refers_to(lsg, #[trigger] init[j], hash) by {
            assert(init[j] == ids[j]);
        }
        law_first_entity_gives_the_handle(index, lsg, init, hash, i);
        assert(all_registered(index, lsg, init).contains_key(hash));
    } else {
        assert forall|j: int| 0 <= j < init.len() implies !refers_to(
            lsg,
            #[trigger] init[j],
            hash,
        ) by {
            assert(init[j] == ids[j]);
        }
        assert(!all_registered(index, lsg, init).contains_key(hash));
        assert(ids.last() == ids[i]);
    }
}

/// What a document says of an accessor stands at its own number: which buffer view it
/// has, how many items, and where that view starts.
pub proof fn law_accessors_are_read_at_their_number(json: Seq<u8>, i: u64)
    ensures
        slot_in(json, i).accessor == i,
        slot_in(json, i).view == json_number_at(
            json,
            "/accessors/"@ + decimal_of(i as nat) + "/bufferView"@,
        ),
        slot_in(json, i).count == json_number_at(
            json,
            "/accessors/"@ + decimal_of(i as nat) + "/count"@,
        ),
        slot_in(json, i).view matches Some(v) ==> slot_in(json, i).offset == json_number_at(
            json,
            "/bufferViews/"@ + decimal_of(v as nat) + "/byteOffset"@,
        ),
        slot_in(json, i).view is None ==> slot_in(json, i).offset is None,
{
}

/// The mesh of a document is the first primitive of its first mesh: its positions, its
/// normals where it has any, and its indices.
pub proof fn law_first_primitive_is_read(json: Seq<u8>)
    requires
        json_array_at(json, "/meshes"@) is Some,
        json_array_at(json, "/meshes/0/primitives"@) is Some,
    ensures
        ({
            let l = layout_in(json);
            let p = json_number_at(json, "/meshes/0/primitives/0/attributes/POSITION"@);
            let n = json_number_at(json, "/meshes/0/primitives/0/attributes/NORMAL"@);
            let k = json_number_at(json, "/meshes/0/primitives/0/indices"@);
            &&& l.document == json_document(json)
            &&& l.accessors == json_array_at(json, "/accessors"@)
            &&& l.views == json_array_at(json, "/bufferViews"@)
            &&& p matches Some(i) ==> l.positions == Some(slot_in(json, i))
            &&& p is None ==> l.positions is None
            &&& n matches Some(i) ==> l.normals == Some(slot_in(json, i))
            &&& n is None ==> l.normals is None
            &&& k matches Some(i) ==> l.indices == Some(slot_in(json, i))
            &&& k is None ==> l.indices is None
        }),
{
    lemma_primitive_pointers();
}

/// A mesh is read out of the binary part item by item: a vector every twelve bytes, its
/// three numbers one after the other, and an index every four.
pub proof fn law_meshes_are_read_item_by_item(p: Parts, bin: Seq<u8>, i: int)
    ensures
        ({
            let m = mesh_at(p, bin);
            &&& m.positions.len() == p.positions.count
            &&& m.indices.len() == p.indices.count
            &&& 0 <= i < p.positions.count ==> {
                &&& m.positions[i].x == word_at(bin, p.positions.base + 12 * i)
                &&& m.positions[i].y == word_at(bin, p.positions.base + 12 * i + 4)
                &&& m.positions[i].z == word_at(bin, p.positions.base + 12 * i + 8)
            }
            &&& 0 <= i < p.indices.count ==> m.indices[i] == word_at(bin, p.indices.base + 4 * i)
            &&& p.normals is None ==> m.normals.len() == 0
            &&& p.normals matches Some(n) ==> m.normals.len() == n.count && (0 <= i < n.count ==> {
                &&& m.normals[i].x == word_at(bin, n.base + 12 * i)
                &&& m.normals[i].y == word_at(bin, n.base + 12 * i + 4)
                &&& m.normals[i].z == word_at(bin, n.base + 12 * i + 8)
            })
        }),
{
}

/// The chunks of a file are walked one after the other: each has its length and its name
/// in front. A chunk named `JSON` or `BIN` replaces an earlier one of the name, another
/// is passed over, and one that runs past the end is an error.
pub proof fn law_chunks_are_walked(b: Seq<u8>, off: int, c: Chunks)
    requires
        0 <= off,
    ensures
        off + 8 > b.len() ==> chunks_from(b, off, c) == Some(c),
        off + 8 <= b.len() ==> ({
            let end = off + 8 + word_at(b, off);
            let name = word_at(b, off + 4);
            &&& end > b.len() ==> chunks_from(b, off, c) is None
            &&& end <= b.len() && name == 0x4e4f_534a ==> chunks_from(b, off, c) == chunks_from(
                b,
                end,
                Chunks { json: Some(b.subrange(off + 8, end)), bin: c.bin },
            )
            &&& end <= b.len() && name == 0x004e_4942 ==> chunks_from(b, off, c) == chunks_from(
                b,
                end,
                Chunks { json: c.json, bin: Some(b.subrange(off + 8, end)) },
            )
            &&& end <= b.len() && name != 0x4e4f_534a && name != 0x004e_4942 ==> chunks_from(
                b,
                off,
                c,
            ) == chunks_from(b, end, c)
        }),
{
}

} // verus!
