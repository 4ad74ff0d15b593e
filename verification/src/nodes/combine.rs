//! The blend methods of the `Combine` node.

use vstd::prelude::*;

use crate::nodes::same_text;

verus! {

/// How `Combine` merges its two inputs.
#[derive(Debug, Clone, Copy, PartialEq, Eq, Hash, Structural)]
pub enum CombineMethod {
    Blend,
    Add,
    Subtract,
    Multiply,
    Screen,
    Difference,
}

/// The name of each method, as the node's parameter stores it.
pub open spec fn method_name(m: CombineMethod) -> Seq<char> {
    match m {
        CombineMethod::Blend => "Blend"@,
        CombineMethod::Add => "Add"@,
        CombineMethod::Subtract => "Subtract"@,
        CombineMethod::Multiply => "Multiply"@,
        CombineMethod::Screen => "Screen"@,
        CombineMethod::Difference => "Difference"@,
    }
}

/// The method named `s`, if any.
pub open spec fn method_named(s: Seq<char>) -> Option<CombineMethod> {
    if s == "Blend"@ {
        Some(CombineMethod::Blend)
    } else if s == "Add"@ {
        Some(CombineMethod::Add)
    } else if s == "Subtract"@ {
        Some(CombineMethod::Subtract)
    } else if s == "Multiply"@ {
        Some(CombineMethod::Multiply)
    } else if s == "Screen"@ {
        Some(CombineMethod::Screen)
    } else if s == "Difference"@ {
        Some(CombineMethod::Difference)
    } else {
        None
    }
}

/// The id the compute shader dispatches each method on.
pub open spec fn method_gpu_id(m: CombineMethod) -> u32 {
    match m {
        CombineMethod::Blend => 0,
        CombineMethod::Add => 1,
        CombineMethod::Subtract => 2,
        CombineMethod::Multiply => 3,
        CombineMethod::Screen => 4,
        CombineMethod::Difference => 5,
    }
}

impl CombineMethod {
    /// `Blend`, the method a new `Combine` node starts with.
    pub fn default_method() -> (m: Self)
        ensures
            m == CombineMethod::Blend,
    {
        CombineMethod::Blend
    }

    pub fn to_str(self) -> (r: &'static str)
        ensures
            r@ == method_name(self),
    {
        match self {
            CombineMethod::Blend => "Blend",
            CombineMethod::Add => "Add",
            CombineMethod::Subtract => "Subtract",
            CombineMethod::Multiply => "Multiply",
            CombineMethod::Screen => "Screen",
            CombineMethod::Difference => "Difference",
        }
    }

    pub fn from_str(s: &str) -> (r: Option<Self>)
        ensures
            r == method_named(s@),
    {
        if same_text(s, "Blend") {
            Some(CombineMethod::Blend)
        } else if same_text(s, "Add") {
            Some(CombineMethod::Add)
        } else if same_text(s, "Subtract") {
            Some(CombineMethod::Subtract)
        } else if same_text(s, "Multiply") {
            Some(CombineMethod::Multiply)
        } else if same_text(s, "Screen") {
            Some(CombineMethod::Screen)
        } else if same_text(s, "Difference") {
            Some(CombineMethod::Difference)
        } else {
            None
        }
    }

    /// Every method's name, in the order the node's menu lists them.
    pub fn all_options() -> (r: Vec<&'static str>)
        ensures
            r@.map_values(|s: &'static str| s@) == seq![
                "Blend"@,
                "Add"@,
                "Subtract"@,
                "Multiply"@,
                "Screen"@,
                "Difference"@,
            ],
    {
        let r = vec!["Blend", "Add", "Subtract", "Multiply", "Screen", "Difference"];
        proof {
            assert(r@.map_values(|s: &'static str| s@) =~= seq![
                "Blend"@,
                "Add"@,
                "Subtract"@,
                "Multiply"@,
                "Screen"@,
                "Difference"@,
            ]);
        }
        r
    }

    /// Must match the compute shader's dispatch on the method exactly.
    pub fn gpu_id(self) -> (r: u32)
        ensures
            r == method_gpu_id(self),
    {
        match self {
            CombineMethod::Blend => 0,
            CombineMethod::Add => 1,
            CombineMethod::Subtract => 2,
            CombineMethod::Multiply => 3,
            CombineMethod::Screen => 4,
            CombineMethod::Difference => 5,
        }
    }
}

/// A method's name reads back as that method.
pub proof fn lemma_method_name_roundtrip(m: CombineMethod)
    ensures
        method_named(method_name(m)) == Some(m),
{
    reveal_strlit("Blend");
    reveal_strlit("Add");
    reveal_strlit("Subtract");
    reveal_strlit("Multiply");
    reveal_strlit("Screen");
    reveal_strlit("Difference");
    match m {
        CombineMethod::Blend => {
        },
        CombineMethod::Add => {
            assert("Add"@.len() != "Blend"@.len());
        },
        CombineMethod::Subtract => {
            assert("Subtract"@.len() != "Blend"@.len());
            assert("Subtract"@.len() != "Add"@.len());
        },
        CombineMethod::Multiply => {
            assert("Multiply"@.len() != "Blend"@.len());
            assert("Multiply"@.len() != "Add"@.len());
            assert("Multiply"@[0] != "Subtract"@[0]);
        },
        CombineMethod::Screen => {
            assert("Screen"@.len() != "Blend"@.len());
            assert("Screen"@.len() != "Add"@.len());
            assert("Screen"@.len() != "Subtract"@.len());
            assert("Screen"@.len() != "Multiply"@.len());
        },
        CombineMethod::Difference => {
            assert("Difference"@.len() != "Blend"@.len());
            assert("Difference"@.len() != "Add"@.len());
            assert("Difference"@.len() != "Subtract"@.len());
            assert("Difference"@.len() != "Multiply"@.len());
            assert("Difference"@.len() != "Screen"@.len());
        },
    }
}

/// Reading a name that names a method, then writing that method's name, gives the name back.
pub proof fn lemma_method_named_roundtrip(s: Seq<char>)
    requires
        method_named(s) is Some,
    ensures
        method_name(method_named(s).unwrap()) == s,
{
}

/// Distinct methods get distinct shader ids, each below the number of methods.
pub proof fn lemma_gpu_ids_distinct(a: CombineMethod, b: CombineMethod)
    ensures
        method_gpu_id(a) < 6,
        a != b ==> method_gpu_id(a) != method_gpu_id(b),
{
}

} // verus!
