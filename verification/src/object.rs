//! Render-agnostic geometry values: colors, integer positions, and the
//! instance list that a renderer consumes.

use vstd::prelude::*;

verus! {

/// A voxel color with four 8-bit channels.
#[derive(Clone, Copy, PartialEq, Eq, Structural, Debug)]
pub struct Rgba {
    pub r: u8,
    pub g: u8,
    pub b: u8,
    pub a: u8,
}

/// An integer cell position in world coordinates.
#[derive(Clone, Copy, PartialEq, Eq, Structural, Debug)]
pub struct Pos3 {
    pub x: i32,
    pub y: i32,
    pub z: i32,
}

/// An integer offset between cells.
#[derive(Clone, Copy, PartialEq, Eq, Structural, Debug)]
pub struct Vec3i {
    pub x: i32,
    pub y: i32,
    pub z: i32,
}

/// One visible voxel, ready for instanced rendering: a color and the cell
/// the unit cube is centered on.
#[derive(Clone, Copy, PartialEq, Eq, Structural, Debug)]
pub struct Instance {
    pub color: Rgba,
    pub translation: Pos3,
}

/// Rejects instanced meshes whose fixed per-shape geometry is empty.
#[derive(Clone, Copy, PartialEq, Eq, Structural, Debug)]
pub enum InstancesMeshError {
    EmptyVertices,
    EmptyIndices,
}

/// An accumulator of visible voxel instances, all sharing one fixed shape.
///
/// The shape's vertex and index data live with the renderer; this core only
/// validates that they are non-empty and collects the per-voxel instances.
pub struct InstancesMesh {
    pub instances: Vec<Instance>,
}

impl InstancesMesh {
    /// Validates the fixed shape's geometry, then starts an empty instance
    /// list. A shape with no vertices or no indices is a programming error
    /// surfaced as an `InstancesMeshError`.
    pub fn new(vertex_count: usize, index_count: usize) -> (r: Result<InstancesMesh, InstancesMeshError>)
        ensures
            vertex_count == 0 ==> r == Result::<InstancesMesh, InstancesMeshError>::Err(InstancesMeshError::EmptyVertices),
            vertex_count != 0 && index_count == 0 ==> r == Result::<InstancesMesh, InstancesMeshError>::Err(InstancesMeshError::EmptyIndices),
            vertex_count != 0 && index_count != 0 ==> r is Ok && r->Ok_0.instances@ =~= Seq::<Instance>::empty(),
    {
        if vertex_count == 0 {
            return Err(InstancesMeshError::EmptyVertices);
        }
        if index_count == 0 {
            return Err(InstancesMeshError::EmptyIndices);
        }
        Ok(InstancesMesh { instances: Vec::new() })
    }

    /// An empty instance list, for accumulators whose shape is known good.
    pub fn empty() -> (r: InstancesMesh)
        ensures
            r.instances@ =~= Seq::<Instance>::empty(),
    {
        InstancesMesh { instances: Vec::new() }
    }

    pub fn instances(&self) -> (r: &Vec<Instance>)
        ensures
            r == &self.instances,
    {
        &self.instances
    }

    pub fn clear_instances(&mut self)
        ensures
            final(self).instances@ =~= Seq::<Instance>::empty(),
    {
        self.instances.clear();
    }

    pub fn is_empty(&self) -> (r: bool)
        ensures
            r == (self.instances@.len() == 0),
    {
        self.instances.len() == 0
    }

    pub fn append_instance(&mut self, instance: Instance)
        ensures
            final(self).instances@ == old(self).instances@.push(instance),
    {
        self.instances.push(instance);
    }

    /// Appends every instance of `other`, in order.
    pub fn extend_mesh(&mut self, other: &InstancesMesh)
        ensures
            final(self).instances@ == old(self).instances@ + other.instances@,
    {
        let mut i: usize = 0;
        while i < other.instances.len()
            invariant
                i <= other.instances@.len(),
                self.instances@ == old(self).instances@ + other.instances@.subrange(0, i as int),
            decreases other.instances@.len() - i,
        {
            self.instances.push(other.instances[i]);
            proof {
                assert(other.instances@.subrange(0, i + 1 as int)
                    =~= other.instances@.subrange(0, i as int).push(other.instances@[i as int]));
            }
            i = i + 1;
        }
        proof {
            assert(other.instances@.subrange(0, other.instances@.len() as int) =~= other.instances@);
        }
    }
}

} // verus!
