use stardust::glsl::{GlslFunction, GlslType};

fn sphere() -> GlslFunction {
    GlslFunction {
        return_type: GlslType::Float,
        name: String::from("sdSphere"),
        args: vec![(String::from("p"), GlslType::Vec3), (String::from("r"), GlslType::Float)],
        code: String::from("return length(p) - r;"),
    }
}

#[test]
fn type_keywords_are_lower_case_names() {
    assert_eq!(GlslType::Void.to_glsl(), "void");
    assert_eq!(GlslType::Float.to_glsl(), "float");
    assert_eq!(GlslType::Int.to_glsl(), "int");
    assert_eq!(GlslType::Uint.to_glsl(), "uint");
    assert_eq!(GlslType::Bool.to_glsl(), "bool");
    assert_eq!(GlslType::Vec2.to_glsl(), "vec2");
    assert_eq!(GlslType::Vec3.to_glsl(), "vec3");
    assert_eq!(GlslType::Vec4.to_glsl(), "vec4");
    assert_eq!(GlslType::IVec2.to_glsl(), "ivec2");
    assert_eq!(GlslType::IVec3.to_glsl(), "ivec3");
    assert_eq!(GlslType::IVec4.to_glsl(), "ivec4");
    assert_eq!(GlslType::UVec2.to_glsl(), "uvec2");
    assert_eq!(GlslType::UVec3.to_glsl(), "uvec3");
    assert_eq!(GlslType::UVec4.to_glsl(), "uvec4");
    assert_eq!(GlslType::BVec2.to_glsl(), "bvec2");
    assert_eq!(GlslType::BVec3.to_glsl(), "bvec3");
    assert_eq!(GlslType::BVec4.to_glsl(), "bvec4");
    for t in [GlslType::Void, GlslType::IVec3, GlslType::BVec4] {
        assert_eq!(t.to_glsl(), format!("{:?}", t).to_lowercase());
    }
}

#[test]
fn function_definition_has_signature_and_body() {
    assert_eq!(sphere().to_glsl(), "float sdSphere(vec3 p, float r) { return length(p) - r; }");
}

#[test]
fn function_without_parameters_has_empty_parentheses() {
    let f = GlslFunction {
        return_type: GlslType::Void,
        name: String::from("main"),
        args: Vec::new(),
        code: String::new(),
    };
    assert_eq!(f.to_glsl(), "void main() {  }");
    assert_eq!(f.call_to_glsl(|n| n.to_string()), "main()");
}

#[test]
fn call_maps_each_parameter_name() {
    let call = sphere().call_to_glsl(|n| match n {
        "p" => String::from("pos"),
        "r" => String::from("5"),
        _ => String::from("?"),
    });
    assert_eq!(call, "sdSphere(pos, 5)");
    let one = GlslFunction {
        return_type: GlslType::Float,
        name: String::from("f"),
        args: vec![(String::from("x"), GlslType::Float)],
        code: String::from("return x;"),
    };
    assert_eq!(one.call_to_glsl(|n| format!("{}{}", n, n)), "f(xx)");
    assert_eq!(one.to_glsl(), "float f(float x) { return x; }");
}
