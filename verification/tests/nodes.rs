use waterdrop_terrain_generator::node::{NodeCategory, NodeLocality, NodePortType, SocketDtype};
use waterdrop_terrain_generator::nodes::combine::CombineMethod;
use waterdrop_terrain_generator::nodes::flat::{Flat, NodeGeneratorFlat};
use waterdrop_terrain_generator::nodes::satmap::SatMapPreset;
use waterdrop_terrain_generator::nodes::same_text;

#[test]
fn categories_are_listed_in_menu_order_with_their_names() {
    let names: Vec<&str> = NodeCategory::all().iter().map(|c| c.display_name()).collect();
    assert_eq!(names, vec!["Generation", "Modification", "Surface", "Simulation", "Data Extraction", "Texturing", "Utility"]);
}

#[test]
fn subcategories_per_category() {
    assert_eq!(NodeCategory::Generation.subcategories(), vec!["External", "Mathematical", "Geometric", "Primitives", "Landscape"]);
    assert_eq!(NodeCategory::Simulation.subcategories(), vec!["Erosion", "Hydrology", "Snow & Ice", "Ecological Scatter"]);
    assert_eq!(NodeCategory::DataExtraction.subcategories(), vec!["Topographic Analysis", "Texture Masks"]);
    assert_eq!(NodeCategory::Utility.subcategories().len(), 3);
    assert_eq!(NodeCategory::Modification.subcategories()[5], "Stylized FX");
}

#[test]
fn port_types_have_their_channel_counts() {
    assert_eq!(NodePortType::Height.channels(), 1);
    assert_eq!(NodePortType::Mask.channels(), 1);
    assert_eq!(NodePortType::Color.channels(), 3);
}

#[test]
fn combine_methods_read_back_from_their_names() {
    for name in CombineMethod::all_options() {
        let m = CombineMethod::from_str(name).unwrap();
        assert_eq!(m.to_str(), name);
    }
    assert_eq!(CombineMethod::from_str("Screen"), Some(CombineMethod::Screen));
    assert_eq!(CombineMethod::from_str("screen"), None);
    assert_eq!(CombineMethod::default_method(), CombineMethod::Blend);
    let ids: Vec<u32> = ["Blend", "Add", "Subtract", "Multiply", "Screen", "Difference"]
        .iter()
        .map(|n| CombineMethod::from_str(n).unwrap().gpu_id())
        .collect();
    assert_eq!(ids, vec![0, 1, 2, 3, 4, 5]);
}

#[test]
fn satmap_presets_read_back_from_their_names() {
    for name in SatMapPreset::all_options() {
        assert_eq!(SatMapPreset::from_str(name).unwrap().to_str(), name);
    }
    assert_eq!(SatMapPreset::from_str("Tropical Islands"), Some(SatMapPreset::TropicalIslands));
    assert_eq!(SatMapPreset::from_str("Jungle"), None);
    assert_eq!(SatMapPreset::default_preset(), SatMapPreset::Grayscale);
    assert_eq!(SatMapPreset::all_options().len(), 7);
}

#[test]
fn flat_generators_have_one_height_output() {
    let s = Flat.shape();
    assert_eq!(s.label, "Flat");
    assert!(s.inputs.is_empty());
    assert_eq!(s.outputs.len(), 1);
    assert_eq!(s.outputs[0].name, "Height");
    assert_eq!(s.outputs[0].dtype, SocketDtype::Fixed(NodePortType::Height));
    assert_eq!(s.locality, NodeLocality::Local);
    assert_eq!(Flat.category(), NodeCategory::Generation);
    assert_eq!(Flat.subcategory(), "Mathematical");
    assert_eq!(NodeGeneratorFlat.label(), "Flat Generator");
    assert_eq!(NodeGeneratorFlat.shape().outputs.len(), 1);
    assert_eq!(NodeGeneratorFlat.category(), NodeCategory::Generation);
}

#[test]
fn same_text_compares_contents() {
    assert!(same_text("abc", &String::from("abc")));
    assert!(!same_text("abc", "abd"));
}
