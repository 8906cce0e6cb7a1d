//! The container: its header, the block of one mesh, and the order in which
//! the attributes of a mesh become segments.
//!
//! Encoding a segment is not done here. A caller walks the segments of a mesh
//! with [`MeshSegIter`], has each of them encoded, and hands the outcomes, in
//! the order of the walk, to [`write_mesh`] or [`write_tmf`].

use crate::le_bytes::{le_bytes, push_le};
use crate::{MIN_TMF_MAJOR, MIN_TMF_MINOR, TMF_MAJOR, TMF_MINOR};
use vstd::prelude::*;
use vstd::string::StringSliceAdditionalSpecFns;

verus! {

/// Appends `bytes` to `target`.
pub fn push_bytes(target: &mut Vec<u8>, bytes: &[u8])
    ensures
        final(target)@ == old(target)@ + bytes@,
{
    let mut done: usize = 0;
    assert(target@ =~= old(target)@ + bytes@.subrange(0, 0));
    while done < bytes.len()
        invariant
            done <= bytes@.len(),
            target@ == old(target)@ + bytes@.subrange(0, done as int),
        decreases bytes@.len() - done,
    {
        target.push(bytes[done]);
        done = done + 1;
        assert(target@ =~= old(target)@ + bytes@.subrange(0, done as int));
    }
    assert(bytes@.subrange(0, done as int) =~= bytes@);
}

/// The first bytes of every container: the letters `TMF`.
pub open spec fn magic_bytes() -> Seq<u8> {
    seq![0x54u8, 0x4du8, 0x46u8]
}

/// The header of a container of `mesh_count` meshes: the magic bytes; the
/// version of the format, major then minor; the oldest version whose readers
/// can read it, major then minor; the number of meshes. The versions take two
/// bytes each and the number of meshes four, least significant byte first.
pub open spec fn header_bytes(mesh_count: nat) -> Seq<u8> {
    magic_bytes() + le_bytes(TMF_MAJOR as nat, 2) + le_bytes(TMF_MINOR as nat, 2) + le_bytes(
        MIN_TMF_MAJOR as nat,
        2,
    ) + le_bytes(MIN_TMF_MINOR as nat, 2) + le_bytes(mesh_count, 4)
}

/// A header is fifteen bytes long.
pub proof fn lemma_header_len(mesh_count: nat)
    ensures
        header_bytes(mesh_count).len() == 15,
{
}

/// Appends the header of a container of `mesh_count` meshes to `w`.
pub fn write_tmf_header(w: &mut Vec<u8>, mesh_count: u32)
    ensures
        final(w)@ == old(w)@ + header_bytes(mesh_count as nat),
{
    push_header(w, mesh_count as u64);
}

/// Appends the header of a container to `w`, with the low 32 bits of
/// `mesh_count` as the number of meshes.
fn push_header(w: &mut Vec<u8>, mesh_count: u64)
    ensures
        final(w)@ == old(w)@ + header_bytes(mesh_count as nat),
{
    w.push(0x54);
    w.push(0x4d);
    w.push(0x46);
    assert(w@ =~= old(w)@ + magic_bytes());
    push_le(w, TMF_MAJOR as u64, 2);
    push_le(w, TMF_MINOR as u64, 2);
    push_le(w, MIN_TMF_MAJOR as u64, 2);
    push_le(w, MIN_TMF_MINOR as u64, 2);
    push_le(w, mesh_count, 4);
    assert(w@ =~= old(w)@ + header_bytes(mesh_count as nat));
}

/// The name of a mesh as it is stored: the number of its bytes in two bytes,
/// least significant first, then the bytes themselves. Of a number of bytes
/// that two bytes do not hold, the low sixteen bits are stored.
pub open spec fn mesh_name_bytes(name: Seq<u8>) -> Seq<u8> {
    le_bytes(name.len(), 2) + name
}

/// Appends the name `s` of a mesh to `w`, byte for byte as the string holds
/// it.
pub fn write_mesh_name(w: &mut Vec<u8>, s: &str)
    ensures
        final(w)@ == old(w)@ + mesh_name_bytes(s.spec_bytes()),
{
    let bytes = s.as_bytes();
    push_le(w, bytes.len() as u64, 2);
    push_bytes(w, bytes);
    assert(w@ =~= old(w)@ + mesh_name_bytes(s.spec_bytes()));
}

/// What a segment is made from: one of the eight attributes of a mesh, or one
/// of its custom segments, by its place among them.
#[derive(Clone, Copy, Debug, PartialEq, Eq, Structural)]
pub enum SegmentSource {
    /// The vertex positions.
    Vertex,
    /// The normals.
    Normal,
    /// The texture coordinates.
    Uv,
    /// For each triangle corner, the place of its vertex.
    TriangleVertex,
    /// For each triangle corner, the place of its normal.
    TriangleNormal,
    /// For each triangle corner, the place of its texture coordinate.
    TriangleUv,
    /// The tangents.
    Tangent,
    /// For each triangle corner, the place of its tangent.
    TriangleTangent,
    /// The custom segment at the given place.
    Custom(usize),
}

/// Which attributes a mesh has, and how many custom segments.
#[derive(Clone, Copy, Debug)]
pub struct MeshLayout {
    /// Whether the mesh has vertex positions.
    pub vertices: bool,
    /// Whether the mesh has normals.
    pub normals: bool,
    /// Whether the mesh has texture coordinates.
    pub uvs: bool,
    /// Whether the mesh has triangles over its vertices.
    pub vertex_triangles: bool,
    /// Whether the mesh has triangles over its normals.
    pub normal_triangles: bool,
    /// Whether the mesh has triangles over its texture coordinates.
    pub uv_triangles: bool,
    /// Whether the mesh has tangents.
    pub tangents: bool,
    /// Whether the mesh has triangles over its tangents.
    pub tangent_triangles: bool,
    /// The number of custom segments of the mesh.
    pub custom_segments: usize,
}

/// The attribute that stands at place `slot` of the fixed order, for `slot`
/// from 0 to 7.
pub open spec fn slot_source(slot: int) -> SegmentSource {
    if slot == 0 {
        SegmentSource::Vertex
    } else if slot == 1 {
        SegmentSource::Normal
    } else if slot == 2 {
        SegmentSource::Uv
    } else if slot == 3 {
        SegmentSource::TriangleVertex
    } else if slot == 4 {
        SegmentSource::TriangleNormal
    } else if slot == 5 {
        SegmentSource::TriangleUv
    } else if slot == 6 {
        SegmentSource::Tangent
    } else {
        SegmentSource::TriangleTangent
    }
}

/// Whether the mesh has the attribute at place `slot` of the fixed order.
pub open spec fn has_slot(mesh: MeshLayout, slot: int) -> bool {
    if slot == 0 {
        mesh.vertices
    } else if slot == 1 {
        mesh.normals
    } else if slot == 2 {
        mesh.uvs
    } else if slot == 3 {
        mesh.vertex_triangles
    } else if slot == 4 {
        mesh.normal_triangles
    } else if slot == 5 {
        mesh.uv_triangles
    } else if slot == 6 {
        mesh.tangents
    } else {
        mesh.tangent_triangles
    }
}

/// The segments of the attributes from place `slot` of the fixed order on:
/// one for each attribute that the mesh has, none for one that it lacks.
pub open spec fn attribute_segments(mesh: MeshLayout, slot: int) -> Seq<SegmentSource>
    decreases 8 - slot,
{
    if slot < 0 || slot >= 8 {
        Seq::empty()
    } else if has_slot(mesh, slot) {
        seq![slot_source(slot)] + attribute_segments(mesh, slot + 1)
    } else {
        attribute_segments(mesh, slot + 1)
    }
}

/// The custom segments from place `from` on, in their own order.
pub open spec fn custom_segments(mesh: MeshLayout, from: int) -> Seq<SegmentSource> {
    Seq::new(
        (mesh.custom_segments - from) as nat,
        |i: int| SegmentSource::Custom((from + i) as usize),
    )
}

/// The segments of a mesh, in the order in which they are stored: vertices,
/// normals, texture coordinates, the triangles over vertices, over normals
/// and over texture coordinates, tangents, the triangles over tangents, then
/// the custom segments.
pub open spec fn mesh_segments(mesh: MeshLayout) -> Seq<SegmentSource> {
    attribute_segments(mesh, 0) + custom_segments(mesh, 0)
}

/// A walk over the segments of a mesh. Its view is the sequence of the
/// segments that the walk has still to give.
pub struct MeshSegIter {
    mesh: MeshLayout,
    slot: u8,
    custom: usize,
}

impl View for MeshSegIter {
    type V = Seq<SegmentSource>;

    closed spec fn view(&self) -> Seq<SegmentSource> {
        attribute_segments(self.mesh, self.slot as int) + custom_segments(
            self.mesh,
            self.custom as int,
        )
    }
}

impl MeshSegIter {
    #[verifier::type_invariant]
    spec fn inv(self) -> bool {
        &&& self.slot <= 8
        &&& self.custom <= self.mesh.custom_segments
        &&& self.custom > 0 ==> self.slot == 8
    }

    /// A walk at the first segment of `mesh`.
    pub fn tmf_segs(mesh: MeshLayout) -> (segs: Self)
        ensures
            segs@ == mesh_segments(mesh),
    {
        Self { mesh, slot: 0, custom: 0 }
    }

    /// Whether the mesh has the attribute at place `slot` of the fixed order.
    fn has(&self, slot: u8) -> (has: bool)
        ensures
            has == has_slot(self.mesh, slot as int),
    {
        if slot == 0 {
            self.mesh.vertices
        } else if slot == 1 {
            self.mesh.normals
        } else if slot == 2 {
            self.mesh.uvs
        } else if slot == 3 {
            self.mesh.vertex_triangles
        } else if slot == 4 {
            self.mesh.normal_triangles
        } else if slot == 5 {
            self.mesh.uv_triangles
        } else if slot == 6 {
            self.mesh.tangents
        } else {
            self.mesh.tangent_triangles
        }
    }

    /// Gives the next segment of the walk, if one is left, and moves on.
    pub fn next(&mut self) -> (seg: Option<SegmentSource>)
        ensures
            old(self)@.len() == 0 ==> seg is None && final(self)@ == old(self)@,
            old(self)@.len() > 0 ==> seg == Some(old(self)@[0]) && final(self)@ == old(self)@.skip(
                1,
            ),
    {
        proof {
            use_type_invariant(&*self);
        }
        while self.slot < 8
            invariant
                self.slot <= 8,
                self.custom > 0 ==> self.slot == 8,
                self.mesh == old(self).mesh,
                self@ == old(self)@,
            decreases 8 - self.slot,
        {
            let slot = self.slot;
            let present = self.has(slot);
            self.slot = slot + 1;
            if present {
                assert(self@ =~= old(self)@.skip(1));
                return Some(source_of_slot(slot));
            }
        }
        proof {
            use_type_invariant(&*self);
        }
        if self.custom < self.mesh.custom_segments {
            let place = self.custom;
            self.custom = place + 1;
            assert(self@ =~= old(self)@.skip(1));
            Some(SegmentSource::Custom(place))
        } else {
            None
        }
    }
}

/// The attribute that stands at place `slot` of the fixed order.
fn source_of_slot(slot: u8) -> (source: SegmentSource)
    requires
        slot < 8,
    ensures
        source == slot_source(slot as int),
{
    if slot == 0 {
        SegmentSource::Vertex
    } else if slot == 1 {
        SegmentSource::Normal
    } else if slot == 2 {
        SegmentSource::Uv
    } else if slot == 3 {
        SegmentSource::TriangleVertex
    } else if slot == 4 {
        SegmentSource::TriangleNormal
    } else if slot == 5 {
        SegmentSource::TriangleUv
    } else if slot == 6 {
        SegmentSource::Tangent
    } else {
        SegmentSource::TriangleTangent
    }
}

/// What became of the encoding of one segment: its bytes, or nothing where
/// the encoding failed.
pub open spec fn outcome_of<E>(encoded: Result<Vec<u8>, E>) -> Option<Seq<u8>> {
    match encoded {
        Ok(bytes) => Some(bytes@),
        Err(_) => None,
    }
}

/// What became of the encodings of the segments of one mesh, in the order in
/// which the segments were handed in.
pub open spec fn outcomes_of<E>(encoded: Seq<Result<Vec<u8>, E>>) -> Seq<Option<Seq<u8>>> {
    encoded.map_values(|one: Result<Vec<u8>, E>| outcome_of(one))
}

/// Whether no encoding failed.
pub open spec fn all_encoded(outcomes: Seq<Option<Seq<u8>>>) -> bool {
    forall|k: int| 0 <= k < outcomes.len() ==> (#[trigger] outcomes[k]) is Some
}

/// Whether segment number `k` is the first whose encoding failed.
pub open spec fn is_first_failure(outcomes: Seq<Option<Seq<u8>>>, k: int) -> bool {
    &&& 0 <= k < outcomes.len()
    &&& outcomes[k] is None
    &&& forall|j: int| 0 <= j < k ==> (#[trigger] outcomes[j]) is Some
}

/// The bytes of the encoded segments, one segment after the other.
pub open spec fn joined(outcomes: Seq<Option<Seq<u8>>>) -> Seq<u8>
    decreases outcomes.len(),
{
    if outcomes.len() == 0 {
        Seq::empty()
    } else {
        joined(outcomes.drop_last()) + match outcomes.last() {
            Some(bytes) => bytes,
            None => Seq::empty(),
        }
    }
}

/// The segments of a mesh as they are stored: their number in two bytes,
/// least significant first, then the bytes of each, in order. Where an
/// encoding failed, nothing is stored of the segments.
pub open spec fn segments_bytes(outcomes: Seq<Option<Seq<u8>>>) -> Seq<u8> {
    if all_encoded(outcomes) {
        le_bytes(outcomes.len(), 2) + joined(outcomes)
    } else {
        Seq::empty()
    }
}

/// The block of a mesh: its name, then its segments.
pub open spec fn mesh_bytes(name: Seq<u8>, outcomes: Seq<Option<Seq<u8>>>) -> Seq<u8> {
    mesh_name_bytes(name) + segments_bytes(outcomes)
}

/// The segment whose encoding failed.
#[derive(Clone, Copy, Debug, PartialEq, Eq, Structural)]
pub struct FailedSegment {
    /// The number of the segment among those of its mesh.
    pub segment: usize,
}

/// The first segment whose encoding failed, if one did.
pub fn first_failure<E>(encoded: &[Result<Vec<u8>, E>]) -> (failed: Option<usize>)
    ensures
        match failed {
            Some(k) => is_first_failure(outcomes_of(encoded@), k as int),
            None => all_encoded(outcomes_of(encoded@)),
        },
{
    let mut k: usize = 0;
    while k < encoded.len()
        invariant
            k <= encoded@.len(),
            forall|j: int| 0 <= j < k ==> (#[trigger] outcomes_of(encoded@)[j]) is Some,
        decreases encoded@.len() - k,
    {
        if encoded[k].is_err() {
            return Some(k);
        }
        k = k + 1;
    }
    None
}

/// Appends the segments of a mesh to `w`: their number, then their bytes, in
/// the order of `encoded`. Where the encoding of a segment failed, nothing is
/// appended, and the first such segment is named.
pub fn write_segments<E>(w: &mut Vec<u8>, encoded: &[Result<Vec<u8>, E>]) -> (done: Result<
    (),
    FailedSegment,
>)
    ensures
        final(w)@ == old(w)@ + segments_bytes(outcomes_of(encoded@)),
        match done {
            Ok(_) => all_encoded(outcomes_of(encoded@)),
            Err(failed) => is_first_failure(outcomes_of(encoded@), failed.segment as int),
        },
{
    let ghost outcomes = outcomes_of(encoded@);
    match first_failure(encoded) {
        Some(segment) => {
            assert(!all_encoded(outcomes)) by {
                assert(outcomes[segment as int] is None);
            }
            assert(w@ =~= old(w)@ + segments_bytes(outcomes));
            Err(FailedSegment { segment })
        },
        None => {
            push_le(w, encoded.len() as u64, 2);
            let ghost start = w@;
            let mut k: usize = 0;
            assert(outcomes.take(0) =~= Seq::<Option<Seq<u8>>>::empty());
            while k < encoded.len()
                invariant
                    k <= encoded@.len(),
                    outcomes == outcomes_of(encoded@),
                    all_encoded(outcomes),
                    w@ == start + joined(outcomes.take(k as int)),
                decreases encoded@.len() - k,
            {
                proof {
                    assert(outcomes.take(k + 1).drop_last() =~= outcomes.take(k as int));
                    assert(outcomes.take(k + 1).last() == outcomes[k as int]);
                    assert(outcomes[k as int] is Some);
                }
                match &encoded[k] {
                    Ok(bytes) => {
                        push_bytes(w, bytes.as_slice());
                    },
                    Err(_) => {},
                }
                k = k + 1;
                assert(w@ =~= start + joined(outcomes.take(k as int)));
            }
            assert(outcomes.take(k as int) =~= outcomes);
            assert(w@ =~= old(w)@ + segments_bytes(outcomes));
            Ok(())
        },
    }
}

/// Appends the block of a mesh to `w`: its name, then its segments in the
/// order of `encoded`. Where the encoding of a segment failed, the name alone
/// is appended, and the first such segment is named.
pub fn write_mesh<E>(w: &mut Vec<u8>, name: &str, encoded: &[Result<Vec<u8>, E>]) -> (done: Result<
    (),
    FailedSegment,
>)
    ensures
        final(w)@ == old(w)@ + mesh_bytes(name.spec_bytes(), outcomes_of(encoded@)),
        match done {
            Ok(_) => all_encoded(outcomes_of(encoded@)),
            Err(failed) => is_first_failure(outcomes_of(encoded@), failed.segment as int),
        },
{
    write_mesh_name(w, name);
    let done = write_segments(w, encoded);
    assert(w@ =~= old(w)@ + mesh_bytes(name.spec_bytes(), outcomes_of(encoded@)));
    done
}

/// A mesh whose segments have been through encoding: its name, and for each
/// segment, in order, the bytes or the failure.
pub struct EncodedMesh<E> {
    /// The name of the mesh.
    pub name: String,
    /// What became of each segment.
    pub segments: Vec<Result<Vec<u8>, E>>,
}

/// What a container is made from, for one mesh: the bytes of its name, and
/// what became of its segments.
pub ghost struct MeshOutcome {
    /// The bytes of the name.
    pub name: Seq<u8>,
    /// The bytes of each segment, or nothing where its encoding failed.
    pub segments: Seq<Option<Seq<u8>>>,
}

impl<E> EncodedMesh<E> {
    /// The name and the segments as plain bytes.
    pub open spec fn outcome(self) -> MeshOutcome {
        MeshOutcome {
            name: vstd::utf8::encode_utf8(self.name@),
            segments: outcomes_of(self.segments@),
        }
    }
}

/// The outcomes of the meshes of a container, in order.
pub open spec fn mesh_outcomes<E>(meshes: Seq<EncodedMesh<E>>) -> Seq<MeshOutcome> {
    meshes.map_values(|mesh: EncodedMesh<E>| mesh.outcome())
}

/// The blocks of the meshes, in order, up to and with the first mesh of which
/// a segment failed.
pub open spec fn meshes_bytes(meshes: Seq<MeshOutcome>) -> Seq<u8>
    decreases meshes.len(),
{
    if meshes.len() == 0 {
        Seq::empty()
    } else if all_encoded(meshes[0].segments) {
        mesh_bytes(meshes[0].name, meshes[0].segments) + meshes_bytes(meshes.skip(1))
    } else {
        mesh_bytes(meshes[0].name, meshes[0].segments)
    }
}

/// The bytes of a container: the header with the number of meshes, then the
/// blocks of the meshes.
pub open spec fn tmf_bytes(meshes: Seq<MeshOutcome>) -> Seq<u8> {
    header_bytes(meshes.len()) + meshes_bytes(meshes)
}

/// Whether `mesh` is the first mesh of which a segment failed, and `segment`
/// the first such segment of it.
pub open spec fn is_first_failed_mesh(meshes: Seq<MeshOutcome>, mesh: int, segment: int) -> bool {
    &&& 0 <= mesh < meshes.len()
    &&& is_first_failure(meshes[mesh].segments, segment)
    &&& forall|j: int| 0 <= j < mesh ==> all_encoded((#[trigger] meshes[j]).segments)
}

/// A container of no meshes is its header alone: fifteen bytes, with zero as
/// the number of meshes.
pub proof fn lemma_empty_container()
    ensures
        tmf_bytes(Seq::empty()) == header_bytes(0),
        tmf_bytes(Seq::empty()).len() == 15,
        tmf_bytes(Seq::empty()).subrange(11, 15) == seq![0u8, 0u8, 0u8, 0u8],
{
    let bytes = tmf_bytes(Seq::empty());
    assert(bytes =~= header_bytes(0));
    reveal_with_fuel(crate::le_bytes::pow256, 5);
    assert(bytes.subrange(11, 15) =~= seq![0u8, 0u8, 0u8, 0u8]);
}

/// The mesh and the segment at which writing a container stopped.
#[derive(Clone, Copy, Debug, PartialEq, Eq, Structural)]
pub struct TMFExportError {
    /// The number of the mesh among those of the container.
    pub mesh: usize,
    /// The number of the segment, among those of that mesh, whose encoding
    /// failed.
    pub segment: usize,
}

/// Appends a container of `meshes` to `w`: the header, then one block per
/// mesh, in order. Writing stops at the first mesh of which the encoding of a
/// segment failed: of that mesh the name alone is appended, of the meshes
/// after it nothing, and what was appended before stays.
pub fn write_tmf<E>(meshes: &[EncodedMesh<E>], w: &mut Vec<u8>) -> (done: Result<
    (),
    TMFExportError,
>)
    ensures
        final(w)@ == old(w)@ + tmf_bytes(mesh_outcomes(meshes@)),
        match done {
            Ok(_) => forall|j: int|
                0 <= j < meshes@.len() ==> all_encoded((#[trigger] mesh_outcomes(meshes@)[j]).segments),
            Err(failed) => is_first_failed_mesh(
                mesh_outcomes(meshes@),
                failed.mesh as int,
                failed.segment as int,
            ),
        },
{
    let ghost outcomes = mesh_outcomes(meshes@);
    push_header(w, meshes.len() as u64);
    let ghost start = w@;
    let mut k: usize = 0;
    assert(outcomes.skip(0) =~= outcomes);
    while k < meshes.len()
        invariant
            k <= meshes@.len(),
            outcomes == mesh_outcomes(meshes@),
            start == old(w)@ + header_bytes(meshes@.len()),
            w@ + meshes_bytes(outcomes.skip(k as int)) == start + meshes_bytes(outcomes),
            forall|j: int| 0 <= j < k ==> all_encoded((#[trigger] outcomes[j]).segments),
        decreases meshes@.len() - k,
    {
        let ghost before = w@;
        let ghost rest = outcomes.skip(k as int);
        proof {
            assert(rest[0] == outcomes[k as int]);
            assert(rest.skip(1) =~= outcomes.skip(k + 1));
        }
        let mesh = &meshes[k];
        match write_mesh(w, mesh.name.as_str(), mesh.segments.as_slice()) {
            Ok(_) => {
                assert(w@ + meshes_bytes(outcomes.skip(k + 1)) =~= before + meshes_bytes(rest));
            },
            Err(failed) => {
                assert(!all_encoded(rest[0].segments)) by {
                    assert(rest[0].segments[failed.segment as int] is None);
                }
                assert(w@ =~= before + meshes_bytes(rest));
                assert(w@ =~= old(w)@ + tmf_bytes(outcomes));
                return Err(TMFExportError { mesh: k, segment: failed.segment });
            },
        }
        k = k + 1;
    }
    assert(meshes_bytes(outcomes.skip(k as int)) =~= Seq::<u8>::empty());
    assert(w@ =~= old(w)@ + tmf_bytes(outcomes));
    Ok(())
}

} // verus!
