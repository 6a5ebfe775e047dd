//! Shader function signatures and their text.

use vstd::prelude::*;
use crate::text::{joined, push_str};

verus! {

/// The types of the shading language.
#[derive(Debug)]
pub enum GlslType {
    Void,
    Float,
    Int,
    Uint,
    Bool,
    Vec2,
    Vec3,
    Vec4,
    IVec2,
    IVec3,
    IVec4,
    UVec2,
    UVec3,
    UVec4,
    BVec2,
    BVec3,
    BVec4,
}

/// A function of the shading language: signature and body.
#[derive(Debug)]
pub struct GlslFunction {
    pub return_type: GlslType,
    pub name: String,
    pub args: Vec<(String, GlslType)>,
    pub code: String,
}

/// The texts of `parts`, joined by `", "`.
pub open spec fn comma_separated(parts: Seq<Seq<char>>) -> Seq<char> {
    joined(parts, ", "@)
}

impl GlslType {
    /// The keyword of the type.
    pub open spec fn spec_glsl(&self) -> Seq<char> {
        match self {
            GlslType::Void => "void"@,
            GlslType::Float => "float"@,
            GlslType::Int => "int"@,
            GlslType::Uint => "uint"@,
            GlslType::Bool => "bool"@,
            GlslType::Vec2 => "vec2"@,
            GlslType::Vec3 => "vec3"@,
            GlslType::Vec4 => "vec4"@,
            GlslType::IVec2 => "ivec2"@,
            GlslType::IVec3 => "ivec3"@,
            GlslType::IVec4 => "ivec4"@,
            GlslType::UVec2 => "uvec2"@,
            GlslType::UVec3 => "uvec3"@,
            GlslType::UVec4 => "uvec4"@,
            GlslType::BVec2 => "bvec2"@,
            GlslType::BVec3 => "bvec3"@,
            GlslType::BVec4 => "bvec4"@,
        }
    }

    /// The keyword of the type: its name in lower case.
    pub fn to_glsl(&self) -> (s: String)
        ensures
            s@ == self.spec_glsl(),
    {
        match self {
            GlslType::Void => "void".to_owned(),
            GlslType::Float => "float".to_owned(),
            GlslType::Int => "int".to_owned(),
            GlslType::Uint => "uint".to_owned(),
            GlslType::Bool => "bool".to_owned(),
            GlslType::Vec2 => "vec2".to_owned(),
            GlslType::Vec3 => "vec3".to_owned(),
            GlslType::Vec4 => "vec4".to_owned(),
            GlslType::IVec2 => "ivec2".to_owned(),
            GlslType::IVec3 => "ivec3".to_owned(),
            GlslType::IVec4 => "ivec4".to_owned(),
            GlslType::UVec2 => "uvec2".to_owned(),
            GlslType::UVec3 => "uvec3".to_owned(),
            GlslType::UVec4 => "uvec4".to_owned(),
            GlslType::BVec2 => "bvec2".to_owned(),
            GlslType::BVec3 => "bvec3".to_owned(),
            GlslType::BVec4 => "bvec4".to_owned(),
        }
    }
}

impl GlslFunction {
    /// The declarations of the parameters, each as type and name.
    pub open spec fn spec_params(&self) -> Seq<Seq<char>> {
        Seq::new(
            self.args@.len(),
            |i: int| self.args@[i].1.spec_glsl() + " "@ + self.args@[i].0@,
        )
    }

    /// The definition of the function as text.
    pub open spec fn spec_glsl(&self) -> Seq<char> {
        self.return_type.spec_glsl() + " "@ + self.name@ + "("@ + comma_separated(
            self.spec_params(),
        ) + ") { "@ + self.code@ + " }"@
    }

    /// The definition of the function: return type, name, the parameters in
    /// parentheses and separated by `", "`, and the body in braces.
    pub fn to_glsl(&self) -> (s: String)
        ensures
            s@ == self.spec_glsl(),
    {
        let mut params = String::new();
        let mut i: usize = 0;
        assert(self.spec_params().take(0) =~= Seq::<Seq<char>>::empty());
        while i < self.args.len()
            invariant
                i <= self.args@.len(),
                params@ == comma_separated(self.spec_params().take(i as int)),
            decreases self.args@.len() - i,
        {
            let ghost before = params@;
            if i > 0 {
                push_str(&mut params, ", ");
            }
            let ty = self.args[i].1.to_glsl();
            push_str(&mut params, ty.as_str());
            push_str(&mut params, " ");
            push_str(&mut params, self.args[i].0.as_str());
            proof {
                let next = self.spec_params().take(i + 1);
                assert(next.drop_last() =~= self.spec_params().take(i as int));
                assert(next.last() == self.spec_params()[i as int]);
                if i == 0 {
                    assert(before =~= Seq::<char>::empty());
                    assert(params@ =~= next[0]);
                } else {
                    assert(params@ =~= before + ", "@ + next.last());
                }
            }
            i += 1;
        }
        assert(self.spec_params().take(i as int) =~= self.spec_params());
        let mut s = self.return_type.to_glsl();
        push_str(&mut s, " ");
        push_str(&mut s, self.name.as_str());
        push_str(&mut s, "(");
        push_str(&mut s, params.as_str());
        push_str(&mut s, ") { ");
        push_str(&mut s, self.code.as_str());
        push_str(&mut s, " }");
        s
    }

    /// A call of the function: its name and, in parentheses and separated by
    /// `", "`, what `arg_map` gives for each parameter name.
    pub fn call_to_glsl<F: Fn(&str) -> String>(&self, arg_map: F) -> (s: String)
        requires
            forall|i: int, n: &str|
                0 <= i < self.args@.len() && n@ == (#[trigger] self.args@[i]).0@ ==> #[trigger] call_requires(
                    arg_map,
                    (n,),
                ),
        ensures
            exists|values: Seq<Seq<char>>|
                {
                    &&& values.len() == self.args@.len()
                    &&& forall|i: int|
                        0 <= i < values.len() ==> mapped(arg_map, self.args@[i].0@, #[trigger] values[i])
                    &&& s@ == self.name@ + "("@ + comma_separated(values) + ")"@
                },
    {
        let mut params = String::new();
        let ghost mut values: Seq<Seq<char>> = Seq::empty();
        let mut i: usize = 0;
        while i < self.args.len()
            invariant
                i <= self.args@.len(),
                values.len() == i,
                forall|j: int, n: &str|
                    0 <= j < self.args@.len() && n@ == (#[trigger] self.args@[j]).0@ ==> #[trigger] call_requires(
                        arg_map,
                        (n,),
                    ),
                forall|j: int|
                    0 <= j < values.len() ==> mapped(arg_map, self.args@[j].0@, #[trigger] values[j]),
                params@ == comma_separated(values),
            decreases self.args@.len() - i,
        {
            let ghost before = params@;
            let ghost seen = values;
            if i > 0 {
                push_str(&mut params, ", ");
            }
            let name = self.args[i].0.as_str();
            assert(name@ == self.args@[i as int].0@);
            let value = arg_map(name);
            push_str(&mut params, value.as_str());
            proof {
                values = seen.push(value@);
                assert(values.drop_last() =~= seen);
                if i == 0 {
                    assert(before =~= Seq::<char>::empty());
                    assert(params@ =~= values[0]);
                } else {
                    assert(params@ =~= before + ", "@ + values.last());
                }
                assert forall|j: int| 0 <= j < values.len() implies mapped(
                    arg_map,
                    self.args@[j].0@,
                    #[trigger] values[j],
                ) by {
                    if j < i {
                        assert(values[j] == seen[j]);
                    } else {
                        assert(value@ == values[j]);
                        assert(call_ensures(arg_map, (name,), value));
                    }
                }
            }
            i += 1;
        }
        let mut s = String::new();
        push_str(&mut s, self.name.as_str());
        push_str(&mut s, "(");
        push_str(&mut s, params.as_str());
        push_str(&mut s, ")");
        proof {
            assert(s@ =~= self.name@ + "("@ + comma_separated(values) + ")"@);
        }
        s
    }
}

/// Whether `value` is a text that `f` gave for the parameter name `name`.
pub open spec fn mapped<F: Fn(&str) -> String>(f: F, name: Seq<char>, value: Seq<char>) -> bool {
    exists|n: &str, v: String| n@ == name && v@ == value && call_ensures(f, (n,), v)
}

} // verus!
