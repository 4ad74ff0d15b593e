//! What the graph knows about a node: its sockets, their data types, where it may be evaluated,
//! and how it is grouped in the editor.

use vstd::prelude::*;

pub mod error;
pub mod message;
pub mod params;

pub use error::NodeError;

verus! {

/// A node's input or output port type, which determines what kind of data can flow through it.
#[derive(Debug, Clone, Copy, PartialEq, Eq, Structural)]
pub enum NodePortType {
    /// Scalar heightfield, one value per texel.
    Height,
    /// Scalar mask, one value per texel.
    Mask,
    /// RGB color, one value per channel per texel.
    Color,
}

/// Number of planes a tile of type `t` holds.
pub open spec fn port_channels(t: NodePortType) -> usize {
    match t {
        NodePortType::Height | NodePortType::Mask => 1,
        NodePortType::Color => 3,
    }
}

impl NodePortType {
    pub fn channels(self) -> (n: usize)
        ensures
            n == port_channels(self),
    {
        match self {
            NodePortType::Height | NodePortType::Mask => 1,
            NodePortType::Color => 3,
        }
    }
}

/// `Generic` resolves at connect-time from whatever is wired into the node's other `Generic`
/// sockets, which must all agree.
#[derive(Debug, Clone, Copy, PartialEq, Eq, Structural)]
pub enum SocketDtype {
    Fixed(NodePortType),
    Generic,
}

/// `Local` nodes can be computed independently for each chunk, while `Global` nodes are
/// evaluated once over the terrain's whole extent at their own resolution.
#[derive(Debug, Clone, Copy, PartialEq, Eq, Structural)]
pub enum NodeLocality {
    Local,
    Global { native_resolution: usize },
}

/// A node's input or output port.
#[derive(Debug, Clone, Copy)]
pub struct NodeSocket {
    pub name: &'static str,
    pub dtype: SocketDtype,
    pub required: bool,
}

/// The image is expected to be a white glyph on a transparent background so the UI layer can tint it.
#[derive(Debug, Clone, Copy, PartialEq, Eq)]
pub struct NodeIcon {
    pub id: &'static str,
    pub png_bytes: &'static [u8],
}

/// Everything the graph reads of a node: its label, its sockets, its locality and its kernel
/// size. The graph keeps one per node, refreshed whenever the node is edited.
#[derive(Debug, Clone)]
pub struct NodeShape {
    pub label: String,
    pub inputs: Vec<NodeSocket>,
    pub outputs: Vec<NodeSocket>,
    pub locality: NodeLocality,
    /// Kernel size in texels; used to determine padding.
    pub size: usize,
}

/// High-level grouping of nodes, used to color-code and organize nodes in the graph editor.
#[derive(Debug, Clone, Copy, PartialEq, Eq, Structural)]
pub enum NodeCategory {
    Generation,
    Modification,
    Surface,
    Simulation,
    DataExtraction,
    Texturing,
    Utility,
}

impl NodeCategory {
    /// Every category, in the order they should be listed in the "Add Node" menu.
    pub fn all() -> (r: [NodeCategory; 7])
        ensures
            r@ == seq![
                NodeCategory::Generation,
                NodeCategory::Modification,
                NodeCategory::Surface,
                NodeCategory::Simulation,
                NodeCategory::DataExtraction,
                NodeCategory::Texturing,
                NodeCategory::Utility,
            ],
    {
        [
            NodeCategory::Generation,
            NodeCategory::Modification,
            NodeCategory::Surface,
            NodeCategory::Simulation,
            NodeCategory::DataExtraction,
            NodeCategory::Texturing,
            NodeCategory::Utility,
        ]
    }

    /// Every subcategory within this category, in menu order.
    pub fn subcategories(&self) -> (r: Vec<&'static str>)
        ensures
            r@.map_values(|s: &'static str| s@) == match *self {
                NodeCategory::Generation => seq!["External"@, "Mathematical"@, "Geometric"@, "Primitives"@, "Landscape"@],
                NodeCategory::Modification => seq![
                    "Transforms"@,
                    "Morphing"@,
                    "Height Adjustments"@,
                    "Remapping"@,
                    "Smoothing"@,
                    "Stylized FX"@,
                ],
                NodeCategory::Surface => seq![
                    "Rock Formations"@,
                    "Terracing"@,
                    "Micro Structures"@,
                    "Surface Texture"@,
                    "Instance Scatter"@,
                ],
                NodeCategory::Simulation => seq!["Erosion"@, "Hydrology"@, "Snow & Ice"@, "Ecological Scatter"@],
                NodeCategory::DataExtraction => seq!["Topographic Analysis"@, "Texture Masks"@],
                NodeCategory::Texturing => seq!["Color Maps"@, "Color Blends"@],
                NodeCategory::Utility => seq!["Compositing"@, "Data Operations"@, "Logic"@],
            },
    {
        let r = match self {
            NodeCategory::Generation => vec!["External", "Mathematical", "Geometric", "Primitives", "Landscape"],
            NodeCategory::Modification => vec![
                "Transforms",
                "Morphing",
                "Height Adjustments",
                "Remapping",
                "Smoothing",
                "Stylized FX",
            ],
            NodeCategory::Surface => vec![
                "Rock Formations",
                "Terracing",
                "Micro Structures",
                "Surface Texture",
                "Instance Scatter",
            ],
            NodeCategory::Simulation => vec!["Erosion", "Hydrology", "Snow & Ice", "Ecological Scatter"],
            NodeCategory::DataExtraction => vec!["Topographic Analysis", "Texture Masks"],
            NodeCategory::Texturing => vec!["Color Maps", "Color Blends"],
            NodeCategory::Utility => vec!["Compositing", "Data Operations", "Logic"],
        };
        proof {
            assert(r@.map_values(|s: &'static str| s@) =~= match *self {
                NodeCategory::Generation => seq!["External"@, "Mathematical"@, "Geometric"@, "Primitives"@, "Landscape"@],
                NodeCategory::Modification => seq![
                    "Transforms"@,
                    "Morphing"@,
                    "Height Adjustments"@,
                    "Remapping"@,
                    "Smoothing"@,
                    "Stylized FX"@,
                ],
                NodeCategory::Surface => seq![
                    "Rock Formations"@,
                    "Terracing"@,
                    "Micro Structures"@,
                    "Surface Texture"@,
                    "Instance Scatter"@,
                ],
                NodeCategory::Simulation => seq!["Erosion"@, "Hydrology"@, "Snow & Ice"@, "Ecological Scatter"@],
                NodeCategory::DataExtraction => seq!["Topographic Analysis"@, "Texture Masks"@],
                NodeCategory::Texturing => seq!["Color Maps"@, "Color Blends"@],
                NodeCategory::Utility => seq!["Compositing"@, "Data Operations"@, "Logic"@],
            });
        }
        r
    }

    pub fn display_name(&self) -> (r: &'static str)
        ensures
            r@ == match *self {
                NodeCategory::Generation => "Generation"@,
                NodeCategory::Modification => "Modification"@,
                NodeCategory::Surface => "Surface"@,
                NodeCategory::Simulation => "Simulation"@,
                NodeCategory::DataExtraction => "Data Extraction"@,
                NodeCategory::Texturing => "Texturing"@,
                NodeCategory::Utility => "Utility"@,
            },
    {
        match self {
            NodeCategory::Generation => "Generation",
            NodeCategory::Modification => "Modification",
            NodeCategory::Surface => "Surface",
            NodeCategory::Simulation => "Simulation",
            NodeCategory::DataExtraction => "Data Extraction",
            NodeCategory::Texturing => "Texturing",
            NodeCategory::Utility => "Utility",
        }
    }
}

} // verus!
