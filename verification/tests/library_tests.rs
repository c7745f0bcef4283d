use fantasy_map::borders::get_border_paths;
use fantasy_map::cli::{image_size, parse_size, split_string};
use fantasy_map::contours::get_contour_paths;
use fantasy_map::face_tables::face_tables;
use fantasy_map::dcel::{Dcel, Face};
use fantasy_map::delaunay::{
    cleanup, flip_edge, init_triangulation, insert_point_into_triangle,
    insert_point_into_triangle_edge,
};
use fantasy_map::labels::get_label_names;
use fantasy_map::paths::{get_border_path, get_contour_path};
use fantasy_map::poisson_disc;
use fantasy_map::regions::{
    cleanup_land_faces, fix_disjoint_territories, flood_fill, smooth_territories,
};
use fantasy_map::presentation::{
    default_layer_metadata, escape_text, resolve_svg_font_family, PresentationOutputKind,
    StandardSvgLayers, StandardSvgPlugin,
};
use fantasy_map::render_config::TextRenderer;
use fantasy_map::satellite_svg::{
    encode_jpeg_data_url, encode_png_data_url, escape_xml, generate_defs_start, push_xml_escaped,
    rgba_to_rgb, SatelliteSvgOptions,
};
use fantasy_map::svg_adapter::{SvgAdapter, SvgConfig};
use fantasy_map::vertex_map::{VertexMap, VertexType};
use fantasy_map::voronoi::{delaunay_to_voronoi, voronoi_edge_budget};
use fantasy_map::webgpu::{
    encode_mask_texture, pixel_offset_rgba, sample_mask_r8, terrain_mesh_indices, to_top_down_u8,
    write_rgba, WebGpuScenePlugin,
};
use fantasy_map::GlibcRand;

use base64::Engine;

type Point = (f64, f64);

/// Ids are indices, references are null or in range, twins are mutual,
/// next/prev are inverse, a twin starts where the next half-edge starts, and
/// a vertex starts its incident half-edge.
fn assert_consistent(t: &Dcel<Point>) {
    let ne = t.edges.len() as i32;
    for (i, e) in t.edges.iter().enumerate() {
        assert_eq!(e.id.id, i as i32);
        for r in [e.twin, e.next, e.prev] {
            assert!(r.id == -1 || (0..ne).contains(&r.id));
        }
        assert!(e.origin.id == -1 || (0..t.vertices.len() as i32).contains(&e.origin.id));
        assert!(e.incident_face.id == -1 || (0..t.faces.len() as i32).contains(&e.incident_face.id));
        if e.twin.id >= 0 {
            assert_eq!(t.edges[e.twin.id as usize].twin.id, i as i32);
        }
        if e.next.id >= 0 {
            assert_eq!(t.edges[e.next.id as usize].prev.id, i as i32);
        }
        if e.prev.id >= 0 {
            assert_eq!(t.edges[e.prev.id as usize].next.id, i as i32);
        }
        if e.twin.id >= 0 && e.next.id >= 0 {
            assert_eq!(t.edges[e.twin.id as usize].origin, t.edges[e.next.id as usize].origin);
        }
    }
    for (i, f) in t.faces.iter().enumerate() {
        assert_eq!(f.id.id, i as i32);
    }
    for (i, v) in t.vertices.iter().enumerate() {
        assert_eq!(v.id.id, i as i32);
        if v.incident_edge.id >= 0 {
            assert_eq!(t.edges[v.incident_edge.id as usize].origin.id, i as i32);
        }
    }
}

/// The vertex indices around face `f`, starting at its outer component.
fn face_vertices(t: &Dcel<Point>, f: &Face) -> Vec<i32> {
    t.get_outer_components(f).iter().map(|e| e.origin.id).collect()
}

fn super_triangle() -> Dcel<Point> {
    init_triangulation((-10.0, -10.0), (10.0, -10.0), (0.0, 10.0))
}

#[test]
fn init_triangulation_is_one_consistent_triangle() {
    let t = super_triangle();
    assert_eq!(t.vertices.len(), 3);
    assert_eq!(t.edges.len(), 6);
    assert_eq!(t.faces.len(), 1);
    assert_consistent(&t);
    let mut vs = face_vertices(&t, &t.faces[0]);
    vs.sort();
    assert_eq!(vs, vec![0, 1, 2]);
}

#[test]
fn insert_point_splits_triangle_into_three() {
    let mut t = super_triangle();
    let f = t.faces[0];
    let (p, _, _, _) = insert_point_into_triangle((0.0, 0.0), f, &mut t);
    assert_eq!(p.id.id, 3);
    assert_eq!(p.position, (0.0, 0.0));
    assert_eq!(t.vertices.len(), 4);
    assert_eq!(t.edges.len(), 12);
    assert_eq!(t.faces.len(), 3);
    assert_consistent(&t);
    for face in &t.faces {
        let vs = face_vertices(&t, face);
        assert_eq!(vs.len(), 3);
        assert!(vs.contains(&3));
    }
    assert!(!t.is_boundary_vertex_check(t.vertices[3]));
    assert!(t.is_boundary_vertex_check(t.vertices[0]));
    assert_eq!(t.get_incident_faces(t.vertices[3]).len(), 3);
}

#[test]
fn flip_edge_keeps_triangulation_consistent() {
    let mut t = super_triangle();
    let f = t.faces[0];
    let (p, eij, _, _) = insert_point_into_triangle((0.0, 0.0), f, &mut t);
    // Put a second point into the triangle on the other side of `eij`'s twin
    // face is the boundary here, so split a face and flip an inner edge.
    let f1 = t.faces[1];
    let (q, _, _, _) = insert_point_into_triangle((1.0, -2.0), f1, &mut t);
    assert_eq!(q.id.id, 4);
    // An inner edge opposite p whose twin lies on a face.
    let inner = t
        .edges
        .iter()
        .copied()
        .find(|e| {
            e.incident_face.id >= 0
                && e.twin.id >= 0
                && t.edges[e.twin.id as usize].incident_face.id >= 0
                && t.edges[t.edges[e.next.id as usize].next.id as usize].origin.id == p.id.id
        })
        .expect("an inner edge opposite p");
    let _ = eij;
    let before_faces = t.faces.len();
    let (_, a, b) = flip_edge(t.vertices[p.id.id as usize], inner, &mut t);
    assert_consistent(&t);
    assert_eq!(t.faces.len(), before_faces);
    assert_eq!(t.edges[a.id.id as usize].id, a.id);
    assert_eq!(t.edges[b.id.id as usize].id, b.id);
    for face in &t.faces {
        assert_eq!(face_vertices(&t, face).len(), 3);
    }
}

#[test]
fn flipped_edge_joins_the_two_far_corners() {
    let mut t = super_triangle();
    let f = t.faces[0];
    insert_point_into_triangle((0.0, 0.0), f, &mut t);
    assert_eq!(face_vertices(&t, &t.faces[0]), vec![0, 1, 3]);
    assert_eq!(face_vertices(&t, &t.faces[1]), vec![1, 2, 3]);
    let f1 = t.faces[1];
    let (q, _, _, e31) = insert_point_into_triangle((1.0, -2.0), f1, &mut t);
    assert_eq!(face_vertices(&t, &t.faces[4]), vec![3, 1, 4]);
    assert_eq!(e31.incident_face.id, 4);
    let (_, a, b) = flip_edge(q, e31, &mut t);
    assert_consistent(&t);
    assert_eq!(face_vertices(&t, &t.faces[4]), vec![0, 4, 3]);
    assert_eq!(face_vertices(&t, &t.faces[0]), vec![4, 0, 1]);
    assert_eq!((a.incident_face.id, a.origin.id), (4, 3));
    assert_eq!((b.incident_face.id, b.origin.id), (0, 0));
    assert_eq!(t.vertices[4].position, (1.0, -2.0));
}

#[test]
fn point_on_an_edge_splits_both_triangles() {
    let mut t = super_triangle();
    let f = t.faces[0];
    insert_point_into_triangle((0.0, 0.0), f, &mut t);
    let f0 = t.faces[0];
    let outer = t.edges[f0.outer_component.id as usize];
    let h = t.edges[outer.next.id as usize];
    assert_eq!((h.origin.id, h.incident_face.id), (1, 0));
    assert_eq!(face_vertices(&t, &t.faces[2]), vec![2, 0, 3]);
    let (v, a, b, c, d) = insert_point_into_triangle_edge((5.0, -5.0), f0, h, &mut t);
    assert_consistent(&t);
    assert_eq!(v.id.id, 4);
    assert_eq!(t.faces.len(), 5);
    assert_eq!(t.edges.len(), 18);
    assert_eq!(face_vertices(&t, &t.faces[0]), vec![0, 1, 4]);
    assert_eq!(face_vertices(&t, &t.faces[1]), vec![1, 2, 4]);
    assert_eq!(face_vertices(&t, &t.faces[3]), vec![2, 3, 4]);
    assert_eq!(face_vertices(&t, &t.faces[4]), vec![3, 0, 4]);
    assert_eq!(
        (a.incident_face.id, b.incident_face.id, c.incident_face.id, d.incident_face.id),
        (1, 3, 4, 0)
    );
    assert_eq!(face_vertices(&t, &t.faces[2]), vec![2, 0, 3]);
}

#[test]
fn cleanup_removes_super_triangle() {
    let mut t = super_triangle();
    let f = t.faces[0];
    insert_point_into_triangle((0.0, 0.0), f, &mut t);
    // A face with the first point and two super vertices takes the second point.
    let f = t.faces[0];
    insert_point_into_triangle((0.5, -3.0), f, &mut t);
    // A face holding both inner points takes the third.
    let target = t
        .faces
        .iter()
        .copied()
        .find(|face| {
            let vs = face_vertices(&t, face);
            vs.contains(&3) && vs.contains(&4)
        })
        .expect("a face with both inner points");
    insert_point_into_triangle((0.2, -1.0), target, &mut t);
    assert_consistent(&t);
    cleanup(&mut t);
    assert_consistent(&t);
    assert_eq!(t.vertices.len(), 3);
    assert_eq!(t.faces.len(), 1);
    assert_eq!(t.edges.len(), 3);
    let mut vs = face_vertices(&t, &t.faces[0]);
    vs.sort();
    assert_eq!(vs, vec![0, 1, 2]);
    assert_eq!(t.vertices[0].position, (0.0, 0.0));
}

#[test]
fn cleanup_of_bare_super_triangle_leaves_nothing() {
    let mut t = super_triangle();
    cleanup(&mut t);
    assert_eq!(t.vertices.len(), 0);
    assert_eq!(t.faces.len(), 0);
    assert_eq!(t.edges.len(), 0);
}

#[test]
fn voronoi_of_split_triangle_has_one_cell() {
    let mut t = super_triangle();
    let f = t.faces[0];
    insert_point_into_triangle((0.0, 0.0), f, &mut t);
    let centers: Vec<Point> = vec![(1.0, 1.0), (2.0, 2.0), (3.0, 3.0)];
    // one interior vertex with three faces around it
    assert_eq!(voronoi_edge_budget(&t), 3);
    let v = delaunay_to_voronoi(&t, &centers);
    assert_eq!(v.vertices.len(), 3);
    for (k, vert) in v.vertices.iter().enumerate() {
        assert_eq!(vert.position, centers[k]);
        assert_eq!(vert.id.id, k as i32);
        if vert.incident_edge.id >= 0 {
            assert_eq!(v.edges[vert.incident_edge.id as usize].origin.id, k as i32);
        }
    }
    assert_eq!(v.faces.len(), 1);
    assert_eq!(v.edges.len(), 6);
    let cell = v.faces[0];
    let start = v.edges[cell.outer_component.id as usize];
    assert_eq!(v.vertices[start.origin.id as usize].position, centers[0]);
    let boundary = v.get_outer_components(&cell);
    assert_eq!(boundary.len(), 3);
    for e in &boundary {
        assert_eq!(e.incident_face.id, 0);
        let twin = v.edges[e.twin.id as usize];
        assert_eq!(twin.twin.id, e.id.id);
    }
}

#[test]
fn vertex_map_keeps_interior_vertex() {
    let mut t = super_triangle();
    let f = t.faces[0];
    insert_point_into_triangle((0.0, 0.0), f, &mut t);
    let inside = vec![true; 4];
    let vm = VertexMap::new(&t, &inside);
    assert_eq!(vm.size(), 1);
    assert_eq!(vm.vertices[0].id.id, 3);
    assert_eq!(vm.get_vertex_index(t.vertices[3]), 0);
    assert_eq!(vm.get_vertex_index(t.vertices[0]), -1);
    assert!(vm.is_vertex(t.vertices[3]));
    assert!(!vm.is_vertex(t.vertices[1]));
    assert!(vm.is_edge_vertex(t.vertices[3]));
    assert!(!vm.is_interior_vertex(t.vertices[3]));
    assert_eq!(vm.edge.len(), 1);
    assert_eq!(vm.interior.len(), 0);
    assert!(vm.get_neighbour_indices(&t, t.vertices[3]).is_empty());
    let outside = vec![true, true, true, false];
    let none = VertexMap::new(&t, &outside);
    assert_eq!(none.size(), 0);
    let _ = VertexType::Interior;
    assert_eq!(VertexMap::<Point>::new_empty().size(), 0);
}

#[test]
fn parse_size_accepts_width_by_height() {
    assert_eq!(parse_size("1920x1080"), Ok((1920, 1080)));
    assert_eq!(parse_size("+5x6"), Ok((5, 6)));
}

#[test]
fn parse_size_reports_each_error() {
    assert_eq!(
        parse_size("1920"),
        Err("Invalid size format: 1920. Expected WIDTHxHEIGHT".to_string())
    );
    assert_eq!(
        parse_size("1x2x3"),
        Err("Invalid size format: 1x2x3. Expected WIDTHxHEIGHT".to_string())
    );
    assert_eq!(parse_size("ax10"), Err("Invalid width: a".to_string()));
    assert_eq!(parse_size("10x-4"), Err("Invalid height: -4".to_string()));
    assert_eq!(parse_size("x"), Err("Invalid width: ".to_string()));
}

#[test]
fn size_numbers_follow_the_u32_grammar() {
    assert_eq!(parse_size("+5x007"), Ok((5, 7)));
    assert_eq!(parse_size("4294967295x1"), Ok((4294967295, 1)));
    assert_eq!(parse_size("4294967296x1"), Err("Invalid width: 4294967296".to_string()));
    assert_eq!(parse_size("99999999999zx1"), Err("Invalid width: 99999999999z".to_string()));
    assert_eq!(parse_size("+x1"), Err("Invalid width: +".to_string()));
    assert_eq!(parse_size("1x1 "), Err("Invalid height: 1 ".to_string()));
}

#[test]
fn image_size_reads_both_separators_and_falls_back() {
    assert_eq!(image_size("800x600"), (800, 600));
    assert_eq!(image_size("1280:720"), (1280, 720));
    assert_eq!(image_size("wide:600"), (1920, 1080));
    assert_eq!(image_size("800xtall"), (1920, 1080));
    assert_eq!(image_size("abc:720"), (1920, 1080));
    assert_eq!(image_size("abc"), (1920, 1080));
    assert_eq!(image_size("1x2x3"), (1920, 1080));
    assert_eq!(image_size(""), (1920, 1080));
}

#[test]
fn split_string_keeps_empty_pieces() {
    let parts = split_string("axxb", 'x');
    assert_eq!(parts, vec!["a".to_string(), "".to_string(), "b".to_string()]);
    assert_eq!(split_string("", 'x'), vec!["".to_string()]);
}

/// The selection of names as the library documents it, written out plainly.
fn expected_names(seed: u32, num: usize, lists: &[Vec<String>]) -> Vec<String> {
    let mut rng = GlibcRand::new(seed);
    let mut cities: Vec<String> = Vec::new();
    while cities.len() < num {
        let idx = rng.rand() as usize % lists.len();
        cities.extend(lists[idx].iter().cloned());
    }
    for i in (0..cities.len().saturating_sub(1)).rev() {
        let j = rng.rand() as usize % (i + 1);
        cities.swap(i, j);
    }
    cities.truncate(num);
    cities
}

#[test]
fn label_names_are_drawn_and_shuffled() {
    let lists: Vec<Vec<String>> = vec![
        vec!["Avalon".to_string(), "Brindle".to_string()],
        vec!["Calder".to_string()],
        vec!["Dunmore".to_string(), "Eastwatch".to_string(), "Fairhold".to_string()],
    ];
    let mut rng = GlibcRand::new(7);
    let names = get_label_names(4, &mut rng, &lists);
    assert_eq!(names.len(), 4);
    assert_eq!(names, expected_names(7, 4, &lists));
    let all: Vec<&String> = lists.iter().flatten().collect();
    for n in &names {
        assert!(all.contains(&n));
    }
    let mut again = GlibcRand::new(7);
    assert_eq!(get_label_names(4, &mut again, &lists), names);
    assert_eq!(rng.rand(), again.rand());
    let mut none = GlibcRand::new(7);
    assert!(get_label_names(0, &mut none, &lists).is_empty());
    assert_eq!(none.rand(), GlibcRand::new(7).rand());
}

#[test]
fn random_range_stays_in_bounds() {
    let mut rng = GlibcRand::new(3);
    for _ in 0..200 {
        let r = rng.random_range(-5, 7);
        assert!((-5..7).contains(&r));
    }
    let mut a = GlibcRand::new(11);
    let mut b = GlibcRand::new(11);
    let x = a.rand();
    assert_eq!(b.random_range(10, 20), 10 + x % 10);
    let mut c = GlibcRand::new(5);
    for _ in 0..100 {
        let r = poisson_disc::random_range(&mut c, 3, 9);
        assert!((3..9).contains(&r));
    }
}

#[test]
fn png_data_url_round_trips_through_decoder() {
    let rgba: Vec<u8> = vec![255, 0, 0, 255, 0, 255, 0, 128];
    let url = encode_png_data_url(2, 1, &rgba).expect("png");
    let prefix = "data:image/png;base64,";
    assert!(url.starts_with(prefix));
    let bytes = base64::engine::general_purpose::STANDARD
        .decode(&url[prefix.len()..])
        .expect("base64");
    assert_eq!(&bytes[..8], &[0x89, b'P', b'N', b'G', 0x0d, 0x0a, 0x1a, 0x0a]);
    let img = image::load_from_memory(&bytes).expect("decodable png").to_rgba8();
    assert_eq!(img.dimensions(), (2, 1));
    assert_eq!(img.into_raw(), rgba);
}

#[test]
fn jpeg_data_url_is_a_jpeg_of_the_right_size() {
    let rgba: Vec<u8> = (0..(8 * 8 * 4)).map(|i| (i % 251) as u8).collect();
    let url = encode_jpeg_data_url(8, 8, &rgba, 0).expect("jpeg");
    let prefix = "data:image/jpeg;base64,";
    assert!(url.starts_with(prefix));
    let bytes = base64::engine::general_purpose::STANDARD
        .decode(&url[prefix.len()..])
        .expect("base64");
    assert_eq!(&bytes[..2], &[0xff, 0xd8]);
    let img = image::load_from_memory(&bytes).expect("decodable jpeg");
    assert_eq!((img.width(), img.height()), (8, 8));
    let high = encode_jpeg_data_url(8, 8, &rgba, 250).expect("jpeg");
    let top = encode_jpeg_data_url(8, 8, &rgba, 100).expect("jpeg");
    assert_eq!(high, top);
}

#[test]
fn rgba_to_rgb_drops_alpha_and_partial_pixels() {
    assert_eq!(rgba_to_rgb(&[1, 2, 3, 4, 5, 6, 7, 8, 9]), vec![1, 2, 3, 5, 6, 7]);
    assert!(rgba_to_rgb(&[]).is_empty());
}

#[test]
fn xml_escaping_replaces_markup_characters() {
    assert_eq!(escape_xml("a<b>&c"), "a&lt;b&gt;&amp;c");
    assert_eq!(escape_text("Tom & Jerry"), "Tom &amp; Jerry");
    assert_eq!(escape_xml("plain"), "plain");
    let mut out = String::from("<t>");
    push_xml_escaped(&mut out, "1<2");
    assert_eq!(out, "<t>1&lt;2");
}

#[test]
fn defs_start_opens_defs_with_filters() {
    let defs = generate_defs_start();
    assert!(defs.starts_with("<defs><filter id=\"terrain-shadow\""));
    assert!(defs.ends_with("</filter>"));
    assert!(defs.contains("id=\"coast-line-glow\""));
}

#[test]
fn top_down_flips_rows() {
    let data: Vec<u8> = vec![1, 2, 3, 4, 5, 6];
    assert_eq!(to_top_down_u8(&data, 2, 3), vec![5, 6, 3, 4, 1, 2]);
    let with_tail: Vec<u8> = vec![1, 2, 3, 4, 9];
    assert_eq!(to_top_down_u8(&with_tail, 2, 2), vec![3, 4, 1, 2, 0]);
}

#[test]
fn mask_texture_is_binary() {
    assert_eq!(encode_mask_texture(&[0, 1, 200, 0], 2, 2), vec![0, 255, 255, 0]);
}

#[test]
fn rgba_pixel_addressing() {
    assert_eq!(pixel_offset_rgba(4, 1, 2), 36);
    let mut tex = vec![0u8; 8];
    write_rgba(&mut tex, 4, 10, 20, 30, 40);
    assert_eq!(tex, vec![0, 0, 0, 0, 10, 20, 30, 40]);
}

#[test]
fn mask_sampling_clamps_and_thresholds() {
    let tex: Vec<u8> = vec![0, 127, 128, 255];
    assert!(!sample_mask_r8(&tex, 2, 2, 0, 0));
    assert!(!sample_mask_r8(&tex, 2, 2, 1, 0));
    assert!(sample_mask_r8(&tex, 2, 2, 0, 1));
    assert!(sample_mask_r8(&tex, 2, 2, 5, 9));
    assert!(!sample_mask_r8(&tex, 2, 2, -3, -3));
}

#[test]
fn terrain_indices_cover_each_quad_twice() {
    assert_eq!(terrain_mesh_indices(2, 2), vec![0, 2, 1, 1, 2, 3]);
    let idx = terrain_mesh_indices(3, 2);
    assert_eq!(idx, vec![0, 3, 1, 1, 3, 4, 1, 4, 2, 2, 4, 5]);
    assert!(terrain_mesh_indices(1, 5).is_empty());
    assert_eq!(terrain_mesh_indices(4, 3).len(), 3 * 2 * 6);
}

#[test]
fn plugin_descriptions() {
    let layers = default_layer_metadata();
    let ids: Vec<&str> = layers.iter().map(|l| l.id).collect();
    assert_eq!(ids, vec!["slope", "river", "contour", "border", "city", "town", "label"]);
    assert!(layers.iter().all(|l| l.default_enabled));
    assert_eq!(layers[0].label, "Slope");
    assert_eq!(StandardSvgPlugin::output_kind(), PresentationOutputKind::SvgScene);
    assert_eq!(WebGpuScenePlugin::output_kind(), PresentationOutputKind::GpuScenePacket);
    assert!(StandardSvgPlugin::capabilities().supports_direct_svg_export);
    assert!(!StandardSvgPlugin::capabilities().requires_heightmap);
    assert!(WebGpuScenePlugin::capabilities().requires_land_mask);
    assert!(!WebGpuScenePlugin::capabilities().supports_layer_config);
    assert_eq!(resolve_svg_font_family("Times New Roman"), "serif");
    let l = StandardSvgLayers::default();
    assert!(l.slope && l.river && l.contour && l.border && l.city && l.town && l.label);
}

#[test]
fn renderer_settings_defaults() {
    let c = SvgConfig::default();
    assert_eq!((c.coord_precision, c.viewport_width, c.viewport_height), (2, 1920, 1080));
    let a = SvgAdapter::new(SvgConfig { coord_precision: 1, viewport_width: 800, viewport_height: 600 });
    assert_eq!(a.config.viewport_width, 800);
    let o = SatelliteSvgOptions::default();
    assert_eq!((o.max_embedded_image_size, o.jpeg_quality), (1600, 82));
    let _t = TextRenderer::new(640, 480);
}

/// A path of six faces 0-1-2-3-4-5 with symmetric neighbour lists.
fn path_graph(n: usize) -> Vec<Vec<usize>> {
    (0..n)
        .map(|i| {
            let mut v = Vec::new();
            if i > 0 {
                v.push(i - 1);
            }
            if i + 1 < n {
                v.push(i + 1);
            }
            v
        })
        .collect()
}

#[test]
fn flood_fill_collects_connected_faces_with_the_same_label() {
    let nb = path_graph(6);
    let labels = vec![1, 1, 0, 1, 1, 1];
    let mut processed = vec![false; 6];
    let mut faces = vec![99];
    flood_fill(&nb, &labels, 4, &mut processed, &mut faces);
    assert_eq!(faces[0], 99);
    let mut got = faces[1..].to_vec();
    assert_eq!(got[0], 4);
    got.sort();
    assert_eq!(got, vec![3, 4, 5]);
    assert_eq!(processed, vec![false, false, false, true, true, true]);
    let mut faces2 = Vec::new();
    flood_fill(&nb, &labels, 0, &mut processed, &mut faces2);
    assert_eq!(faces2, vec![0, 1]);
}

#[test]
fn small_islands_and_lakes_are_flipped() {
    let nb = path_graph(8);
    // a lone land face at 2 between two seas of two faces, then land 5..=7
    let mut land = vec![false, false, true, false, false, true, true, true];
    cleanup_land_faces(&nb, &mut land, 2);
    assert_eq!(land, vec![false, false, false, false, false, true, true, true]);
    // every group of one face changes sides
    let mut alternating = vec![false, true, false, true];
    cleanup_land_faces(&path_graph(4), &mut alternating, 2);
    assert_eq!(alternating, vec![true, false, true, false]);
    let mut keep = vec![true, true, false, false];
    cleanup_land_faces(&path_graph(4), &mut keep, 2);
    assert_eq!(keep, vec![true, true, false, false]);
}

#[test]
fn territory_smoothing_takes_the_majority() {
    // a star: face 0 is next to 1, 2, 3
    let nb = vec![vec![1, 2, 3], vec![0], vec![0], vec![0]];
    let mut t = vec![0, 1, 1, -1];
    smooth_territories(&nb, &mut t, 2, 1);
    assert_eq!(t, vec![1, 0, 0, -1]);
    let mut t2 = vec![0, 1, 1, -1];
    smooth_territories(&nb, &mut t2, 2, 0);
    assert_eq!(t2, vec![0, 1, 1, -1]);
    // ties keep the face's own territory
    let mut t3 = vec![0, 0, 1, 1];
    smooth_territories(&path_graph(4), &mut t3, 2, 1);
    assert_eq!(t3, vec![0, 0, 1, 1]);
}

#[test]
fn cut_off_territory_joins_its_surroundings() {
    let nb = path_graph(6);
    // territory 0 has its city at face 0; faces 4 and 5 belong to 0 but are
    // cut off by territory 1 (city at face 2).
    let mut t = vec![0, 0, 1, 1, 0, 0];
    fix_disjoint_territories(&nb, &mut t, &vec![0, 2]);
    assert_eq!(t, vec![0, 0, 1, 1, 1, 1]);
    let mut u = vec![0, -1, 1, 1];
    fix_disjoint_territories(&path_graph(4), &mut u, &vec![0, 3]);
    assert_eq!(u, vec![0, -1, 1, 1]);
}

#[test]
fn flipping_rows_twice_restores_the_raster() {
    let data: Vec<u8> = (0..12).collect();
    let once = to_top_down_u8(&data, 4, 3);
    assert_eq!(once, vec![8, 9, 10, 11, 4, 5, 6, 7, 0, 1, 2, 3]);
    assert_eq!(to_top_down_u8(&once, 4, 3), data);
}

#[test]
fn escaped_text_has_no_markup() {
    let e = escape_xml("<a href=\"x\">&</a>");
    assert!(!e.contains('<') && !e.contains('>'));
    assert_eq!(e, "&lt;a href=\"x\"&gt;&amp;&lt;/a&gt;");
}

#[test]
fn terrain_indices_name_grid_vertices() {
    let (w, h) = (5u32, 4u32);
    assert!(terrain_mesh_indices(w, h).iter().all(|&i| i < w * h));
}

#[test]
fn every_label_name_comes_from_the_lists() {
    let lists: Vec<Vec<String>> = vec![
        vec!["Ashford".to_string(), "Bramble".to_string(), "Cinder".to_string()],
        vec!["Dell".to_string()],
    ];
    for seed in [1u32, 2, 3, 99] {
        let mut rng = GlibcRand::new(seed);
        let names = get_label_names(6, &mut rng, &lists);
        assert_eq!(names.len(), 6);
        assert!(names.iter().all(|n| lists.iter().any(|l| l.contains(n))));
    }
}

#[test]
fn contour_walk_follows_contour_edges() {
    // a square 0-1-2-3-0 of contour vertices plus a spur 4 off vertex 1
    let nb = vec![vec![1, 3], vec![0, 2, 4], vec![1, 3], vec![2, 0], vec![1]];
    let ok = vec![vec![true, true], vec![true, true, false], vec![true, true], vec![true, true], vec![false]];
    let is_contour = vec![true, true, true, true, false];
    let is_end = vec![false; 5];
    let mut marks = vec![false; 5];
    let path = get_contour_path(&nb, &ok, &is_contour, &is_end, &mut marks, 0);
    assert_eq!(path, vec![0, 1, 2, 3, 0]);
    assert_eq!(marks, vec![true, true, true, true, false]);
    // an open line ending at an end vertex
    let is_end2 = vec![false, false, true, false, false];
    let mut marks2 = vec![false; 5];
    assert_eq!(get_contour_path(&nb, &ok, &is_contour, &is_end2, &mut marks2, 0), vec![0, 1, 2]);
    // nowhere to go
    let mut marks3 = vec![false; 5];
    assert_eq!(get_contour_path(&nb, &ok, &is_contour, &is_end, &mut marks3, 4), vec![4]);
}

#[test]
fn border_walk_stops_at_end_vertices() {
    // a path 0-1-2-3 with ends at 0 and 3
    let nb = vec![vec![1], vec![0, 2], vec![1, 3], vec![2]];
    let ok = vec![vec![true], vec![true, true], vec![true, true], vec![true]];
    let is_end = vec![true, false, false, true];
    let mut processed = vec![false; 4];
    assert_eq!(get_border_path(&nb, &ok, &is_end, &mut processed, 0), vec![0, 1, 2, 3]);
    assert_eq!(processed, vec![true; 4]);
    // walking again from 0 finds nothing new; its end neighbour list is empty
    let again = get_border_path(&nb, &ok, &is_end, &mut processed, 0);
    assert!(again.is_empty());
    // stuck next to an end vertex: the end vertex is appended
    let ok2 = vec![vec![false], vec![false, false], vec![false, false], vec![false]];
    let mut p2 = vec![false; 4];
    assert_eq!(get_border_path(&nb, &ok2, &is_end, &mut p2, 1), vec![1, 0]);
    assert_eq!(p2, vec![true, true, false, false]);
}

/// A triangulation with two interior vertices, 3 and 4, joined by an edge
/// between faces 3 and 4.
fn two_interior_vertices() -> (Dcel<Point>, VertexMap<Point>, Vec<Vec<usize>>) {
    let mut t = super_triangle();
    let f = t.faces[0];
    insert_point_into_triangle((0.0, 0.0), f, &mut t);
    let f1 = t.faces[1];
    insert_point_into_triangle((1.0, -2.0), f1, &mut t);
    let vm = VertexMap::new(&t, &vec![true; 5]);
    let nbs: Vec<Vec<usize>> = vm
        .vertices
        .iter()
        .map(|v| vm.get_neighbour_indices(&t, *v))
        .collect();
    (t, vm, nbs)
}

#[test]
fn border_paths_run_between_border_ends() {
    let (t, vm, nbs) = two_interior_vertices();
    assert_eq!(vm.vertices.iter().map(|v| v.id.id).collect::<Vec<_>>(), vec![3, 4]);
    assert_eq!(nbs, vec![vec![1], vec![0]]);
    assert_eq!(face_vertices(&t, &t.faces[3]), vec![2, 3, 4]);
    assert_eq!(face_vertices(&t, &t.faces[4]), vec![3, 1, 4]);
    let territories = vec![-1, -1, -1, 0, 1];
    let paths = get_border_paths(&t, &vm, &nbs, &territories);
    assert_eq!(
        paths,
        vec![vec![0, 1], vec![0, 1], vec![0, 1], vec![1, 0], vec![1, 0], vec![1, 0]]
    );
}

#[test]
fn no_border_without_two_territories() {
    let (t, vm, nbs) = two_interior_vertices();
    let same = vec![-1, -1, -1, 2, 2];
    assert!(get_border_paths(&t, &vm, &nbs, &same).is_empty());
    let unclaimed = vec![-1, -1, -1, 0, -1];
    assert!(get_border_paths(&t, &vm, &nbs, &unclaimed).is_empty());
}

#[test]
fn coastline_runs_between_its_two_ends() {
    let (t, vm, nbs) = two_interior_vertices();
    let is_land = vec![false, false, false, true, false];
    assert_eq!(get_contour_paths(&t, &vm, &nbs, &is_land), vec![vec![0, 1]]);
    let all_sea = vec![false; 5];
    assert!(get_contour_paths(&t, &vm, &nbs, &all_sea).is_empty());
}

#[test]
fn face_tables_list_neighbours_vertices_and_edges() {
    let mut t = super_triangle();
    let f = t.faces[0];
    insert_point_into_triangle((0.0, 0.0), f, &mut t);
    let (nbs, verts, eids) = face_tables(&t);
    assert_eq!(nbs, vec![vec![1, 2], vec![2, 0], vec![0, 1]]);
    assert_eq!(verts, vec![vec![0, 1, 3], vec![1, 2, 3], vec![2, 0, 3]]);
    for (face, ids) in eids.iter().enumerate() {
        assert_eq!(ids.len(), 3);
        for &e in ids {
            assert_eq!(t.edges[e].incident_face.id, face as i32);
        }
    }
}
