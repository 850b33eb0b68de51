use raytracer::mesh::MeshData;
use raytracer::obj_parser::{parse_vertex_ref, ObjParseError, ObjParser};
use raytracer::obj_text::{is_number_token, parse_index, split_tokens};
use raytracer::scalar::Scalar;

fn number(token: &[u8]) -> Scalar {
    let text = std::str::from_utf8(token).unwrap();
    Scalar::from_bits(text.parse::<f32>().unwrap().to_bits())
}

fn normalize(x: Scalar, y: Scalar, z: Scalar) -> (Scalar, Scalar, Scalar) {
    let (x, y, z) = (value(x), value(y), value(z));
    let mag = (x.powi(2) + y.powi(2) + z.powi(2)).sqrt();
    (scalar(x / mag), scalar(y / mag), scalar(z / mag))
}

fn scalar(x: f32) -> Scalar {
    Scalar::from_bits(x.to_bits())
}

fn value(x: Scalar) -> f32 {
    f32::from_bits(x.to_bits())
}

fn parse(text: &str) -> Result<MeshData, ObjParseError> {
    ObjParser::parse(text, &number, &normalize)
}

#[test]
fn parses_a_triangle() {
    let mesh = parse("# a triangle\no tri\nv 0 0 0\nv 1 0 0 1\nv 0 1.5 0\nf 1 2 3\n").unwrap();
    assert_eq!(mesh.vertex_positions.len(), 3);
    assert_eq!(value(mesh.vertex_positions[2].1), 1.5);
    assert_eq!(mesh.triangles.len(), 1);
    assert_eq!(mesh.triangles[0].position_indices, (0, 1, 2));
    assert!(mesh.triangles[0].normal_indices.is_none());
    assert!(mesh.triangles[0].tex_coords_indices.is_none());
}

#[test]
fn fan_triangulates_a_pentagon() {
    let text = "v 0 0 0\nv 1 0 0\nv 2 1 0\nv 1 2 0\nv 0 1 0\nf 1 2 3 4 5";
    let mesh = parse(text).unwrap();
    let corners: Vec<_> = mesh.triangles.iter().map(|t| t.position_indices).collect();
    assert_eq!(corners, vec![(0, 1, 2), (0, 2, 3), (0, 3, 4)]);
}

#[test]
fn reads_normals_and_texture_coordinates() {
    let text = "v 0 0 0\nv 1 0 0\nv 0 1 0\nvn 0 0 2\nvt 0.25\nvt 0.5 0.75 1\nf 1/1/1 2/2/1 3/1/1\n";
    let mesh = parse(text).unwrap();
    assert_eq!(value(mesh.vertex_normals[0].2), 1.0);
    assert_eq!(value(mesh.vertex_normals[0].0), 0.0);
    assert_eq!(value(mesh.vertex_tex_coords[0].0), 0.25);
    assert_eq!(value(mesh.vertex_tex_coords[0].1), 0.0);
    assert_eq!(value(mesh.vertex_tex_coords[1].1), 0.75);
    assert_eq!(mesh.triangles[0].tex_coords_indices, Some((0, 1, 0)));
    assert_eq!(mesh.triangles[0].normal_indices, Some((0, 0, 0)));
}

#[test]
fn ignores_materials_smoothing_and_blank_lines() {
    let text = "mtllib a.mtl\n\n   \t\nusemtl red\ns off\n  # indented comment\n#v 1\n";
    let mesh = parse(text).unwrap();
    assert!(mesh.vertex_positions.is_empty());
    assert!(mesh.triangles.is_empty());
}

#[test]
fn splits_at_unicode_white_space_and_carriage_returns() {
    let text = "v\u{00A0}1\u{2003}2\u{3000}3\r\nv 4 5 6\r\n";
    let mesh = parse(text).unwrap();
    assert_eq!(mesh.vertex_positions.len(), 2);
    assert_eq!(value(mesh.vertex_positions[0].2), 3.0);
}

#[test]
fn error_not_enough_arguments() {
    assert!(matches!(parse("v 1 2"), Err(ObjParseError::NotEnoughArguments(1, k)) if k == "v"));
    assert!(matches!(parse("\nvn 1 2"), Err(ObjParseError::NotEnoughArguments(2, k)) if k == "vn"));
    assert!(matches!(parse("vt"), Err(ObjParseError::NotEnoughArguments(1, k)) if k == "vt"));
    assert!(matches!(parse("o"), Err(ObjParseError::NotEnoughArguments(1, k)) if k == "o"));
    assert!(matches!(parse("v 0 0 0\nf 1 1"), Err(ObjParseError::NotEnoughArguments(2, k)) if k == "f"));
}

#[test]
fn error_too_many_arguments() {
    assert!(matches!(parse("v 1 2 3 4 5"), Err(ObjParseError::TooManyArguments(1, k)) if k == "v"));
    assert!(matches!(parse("vn 1 2 3 4"), Err(ObjParseError::TooManyArguments(1, k)) if k == "vn"));
    assert!(matches!(parse("vt 1 2 3 4"), Err(ObjParseError::TooManyArguments(1, k)) if k == "vt"));
    assert!(matches!(parse("o a b"), Err(ObjParseError::TooManyArguments(1, k)) if k == "o"));
}

#[test]
fn error_multiple_objects() {
    assert!(matches!(parse("o a\nv 1 2 3\no b\n"), Err(ObjParseError::MultipleObjects(3))));
}

#[test]
fn error_invalid_float_comes_before_the_count() {
    assert!(matches!(parse("v 1 x"), Err(ObjParseError::InvalidFloat(1))));
    assert!(matches!(parse("v 1 2 3\nv 1 2 3 4 5 1e"), Err(ObjParseError::InvalidFloat(2))));
}

#[test]
fn error_invalid_keyword() {
    assert!(matches!(parse("v 1 2 3\nvp 1 2"), Err(ObjParseError::InvalidKeyword(2, k)) if k == "vp"));
    assert!(matches!(parse("g group"), Err(ObjParseError::InvalidKeyword(1, k)) if k == "g"));
    assert!(matches!(parse("curv2 1 2"), Err(ObjParseError::InvalidKeyword(1, k)) if k == "curv2"));
    assert!(matches!(parse("\nfläche 1"), Err(ObjParseError::InvalidKeyword(2, k)) if k == "fläche"));
}

#[test]
fn error_invalid_vertex_reference() {
    let mixed_tex = parse("v 0 0 0\nvt 0\nf 1/1 1 1");
    assert!(matches!(mixed_tex, Err(ObjParseError::InvalidVertexReference(3, m))
        if m == "only some vertices have texture coordinates"));
    let mixed_normals = parse("v 0 0 0\nvt 0\nvn 0 0 1\nf 1/1/1 1/1 1/1/1");
    assert!(matches!(mixed_normals, Err(ObjParseError::InvalidVertexReference(4, m))
        if m == "only some vertices have normals"));
    assert!(matches!(parse("f 1 a 3"), Err(ObjParseError::InvalidVertexReference(1, m))
        if m == "invalid position index"));
    assert!(matches!(parse("f 1//1 2//1 3//1"), Err(ObjParseError::InvalidVertexReference(1, m))
        if m == "invalid texture coordinate index"));
}

#[test]
fn error_index_out_of_bounds() {
    assert!(matches!(parse("v 0 0 0\nf 1 1 2"), Err(ObjParseError::IndexOutOfBounds(n)) if n == "position"));
    assert!(matches!(parse("v 0 0 0\nf 1/1 1/1 1/1"), Err(ObjParseError::IndexOutOfBounds(n))
        if n == "texture coordinates"));
    assert!(matches!(parse("v 0 0 0\nvt 0\nf 1/1/1 1/1/1 1/1/1"), Err(ObjParseError::IndexOutOfBounds(n))
        if n == "normal"));
    assert!(matches!(parse("v 0 0 0\nf 0 1 1"), Err(ObjParseError::IndexOutOfBounds(n)) if n == "position"));
}

#[test]
fn faces_may_come_before_their_vertices() {
    let mesh = parse("f 1 2 3\nv 0 0 0\nv 1 0 0\nv 0 1 0").unwrap();
    assert_eq!(mesh.triangles.len(), 1);
}

#[test]
fn vertex_ref_forms() {
    assert_eq!(parse_vertex_ref("7", 1).unwrap(), (6, None, None));
    assert_eq!(parse_vertex_ref("7/2", 1).unwrap(), (6, Some(1), None));
    assert_eq!(parse_vertex_ref("+7/2/12", 1).unwrap(), (6, Some(1), Some(11)));
    assert_eq!(parse_vertex_ref("0", 1).unwrap(), (usize::MAX, None, None));
    assert!(matches!(parse_vertex_ref("1/2/3/4", 9), Err(ObjParseError::InvalidVertexReference(9, m))
        if m == "too many slashes"));
    assert!(matches!(parse_vertex_ref("1/2/x", 9), Err(ObjParseError::InvalidVertexReference(9, m))
        if m == "invalid normal index"));
    assert!(matches!(parse_vertex_ref("", 9), Err(ObjParseError::InvalidVertexReference(9, m))
        if m == "invalid position index"));
    assert!(matches!(parse_vertex_ref("-1", 9), Err(ObjParseError::InvalidVertexReference(9, m))
        if m == "invalid position index"));
}

#[test]
fn index_tokens_read_as_std_reads_them() {
    let tokens = [
        "0", "1", "+1", "007", "", "+", "-0", "1a", " 1", "18446744073709551615",
        "18446744073709551616", "99999999999999999999999", "+18446744073709551615", "1+", "١",
    ];
    for token in tokens {
        let bytes = token.as_bytes();
        assert_eq!(parse_index(bytes, 0, bytes.len()), token.parse::<usize>().ok(), "{:?}", token);
    }
}

#[test]
fn number_tokens_are_those_std_reads() {
    let tokens = [
        "0", "1", "-1", "+1", "1.", ".5", "-.5", "1.5", "1e5", "1E5", "1e+5", "1e-5", "1.e5", ".5e5",
        "", "+", "-", ".", "e5", "1e", "1e+", "1e5.", "1.5.2", "--1", "+-1", "1 ", " 1", "1_000",
        "inf", "+inf", "-INF", "Infinity", "INFINITY", "infinit", "infinityx", "nan", "NaN", "-nan",
        "na", "nanx", "in", "0x10", "1f", "1e5e5", "00012.500", "1e99999", "1.0e-99999", "١",
        "infinite", "+.e1", ".e1", "5.e", "i", "n",
    ];
    for token in tokens {
        let bytes = token.as_bytes();
        assert_eq!(
            is_number_token(bytes, 0, bytes.len()),
            token.parse::<f32>().is_ok(),
            "{:?}",
            token
        );
    }
}

#[test]
fn tokens_are_those_std_splits() {
    let lines = [
        "",
        "   ",
        "v 1 2 3",
        "  v\t1  2\u{000B}3 \u{000C}",
        "a\u{0085}b\u{00A0}c\u{1680}d\u{2000}e\u{200A}f\u{2028}g\u{2029}h\u{202F}i\u{205F}j\u{3000}k",
        "\u{200B}x\u{00A1}y\u{2001}",
        "é è\u{3000}",
    ];
    for line in lines {
        let bytes = line.as_bytes();
        let spans = split_tokens(bytes, 0, bytes.len());
        let found: Vec<&str> =
            spans.iter().map(|&(a, b)| std::str::from_utf8(&bytes[a..b]).unwrap()).collect();
        let expected: Vec<&str> = line.split_whitespace().collect();
        assert_eq!(found, expected, "{:?}", line);
    }
}
