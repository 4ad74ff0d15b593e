//! The flat generators: nodes with no input and one `Height` output, all zero.

use vstd::prelude::*;

use crate::node::{NodeCategory, NodeLocality, NodePortType, NodeShape, NodeSocket, SocketDtype};

verus! {

/// The single `Height` output of a flat generator.
pub open spec fn is_height_output(outputs: Seq<NodeSocket>) -> bool {
    &&& outputs.len() == 1
    &&& outputs[0].name@ == "Height"@
    &&& outputs[0].dtype == SocketDtype::Fixed(NodePortType::Height)
    &&& outputs[0].required
}

fn height_output() -> (r: Vec<NodeSocket>)
    ensures
        is_height_output(r@),
{
    vec![NodeSocket { name: "Height", dtype: SocketDtype::Fixed(NodePortType::Height), required: true }]
}

/// A flat heightmap: every texel at zero.
#[derive(Debug, Default, Clone, Copy)]
pub struct Flat;

impl Flat {
    pub fn label(&self) -> (r: &'static str)
        ensures
            r@ == "Flat"@,
    {
        "Flat"
    }

    pub fn category(&self) -> (r: NodeCategory)
        ensures
            r == NodeCategory::Generation,
    {
        NodeCategory::Generation
    }

    /// The menu entry it is listed under within its category.
    pub fn subcategory(&self) -> (r: &'static str)
        ensures
            r@ == "Mathematical"@,
    {
        "Mathematical"
    }

    pub fn outputs(&self) -> (r: Vec<NodeSocket>)
        ensures
            is_height_output(r@),
    {
        height_output()
    }

    /// What the graph keeps of it: no input, one `Height` output, `Local`, no kernel.
    pub fn shape(&self) -> (s: NodeShape)
        ensures
            s.label@ == "Flat"@,
            s.inputs@.len() == 0,
            is_height_output(s.outputs@),
            s.locality == NodeLocality::Local,
            s.size == 0,
    {
        NodeShape {
            label: self.label().to_owned(),
            inputs: Vec::new(),
            outputs: self.outputs(),
            locality: NodeLocality::Local,
            size: 0,
        }
    }
}

/// The flat generator under its earlier name.
#[derive(Debug, Default, Clone, Copy)]
pub struct NodeGeneratorFlat;

impl NodeGeneratorFlat {
    pub fn label(&self) -> (r: &'static str)
        ensures
            r@ == "Flat Generator"@,
    {
        "Flat Generator"
    }

    pub fn category(&self) -> (r: NodeCategory)
        ensures
            r == NodeCategory::Generation,
    {
        NodeCategory::Generation
    }

    pub fn outputs(&self) -> (r: Vec<NodeSocket>)
        ensures
            is_height_output(r@),
    {
        height_output()
    }

    /// What the graph keeps of it: no input, one `Height` output, `Local`, no kernel.
    pub fn shape(&self) -> (s: NodeShape)
        ensures
            s.label@ == "Flat Generator"@,
            s.inputs@.len() == 0,
            is_height_output(s.outputs@),
            s.locality == NodeLocality::Local,
            s.size == 0,
    {
        NodeShape {
            label: self.label().to_owned(),
            inputs: Vec::new(),
            outputs: self.outputs(),
            locality: NodeLocality::Local,
            size: 0,
        }
    }
}

} // verus!
