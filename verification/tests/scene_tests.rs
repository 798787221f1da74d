use game_state::scene::{update_world_transforms, DrawMode, Model, Renderable, SceneGraph};
use game_state::state::State;
use game_state::transform::Mat4;
use game_state::tree::{Node, Tree};

fn rot90_y() -> Mat4 {
    // A quarter turn about the y axis: cos = 0, sin = 1.
    Mat4 {
        m00: 0,
        m01: 0,
        m02: 1,
        m03: 0,
        m10: 0,
        m11: 1,
        m12: 0,
        m13: 0,
        m20: -1,
        m21: 0,
        m22: 0,
        m23: 0,
        m30: 0,
        m31: 0,
        m32: 0,
        m33: 1,
    }
}

#[test]
fn identity_is_neutral_for_composition() {
    let m = Mat4::from_translation(4, -5, 6);
    let i = Mat4::identity();
    assert_eq!(i.compose(&m), m);
    assert_eq!(m.compose(&i), m);
}

#[test]
fn composition_matches_matrix_product_exactly() {
    let t = Mat4::from_translation(1, 2, 3);
    let s = Mat4::from_scale(2);
    let st = s.compose(&t);
    let expected = Mat4 {
        m00: 2,
        m01: 0,
        m02: 0,
        m03: 2,
        m10: 0,
        m11: 2,
        m12: 0,
        m13: 4,
        m20: 0,
        m21: 0,
        m22: 2,
        m23: 6,
        m30: 0,
        m31: 0,
        m32: 0,
        m33: 1,
    };
    assert_eq!(st, expected);
}

#[test]
fn composition_does_not_commute() {
    let t = Mat4::from_translation(1, 2, 3);
    let r = rot90_y();
    let tr = t.compose(&r);
    let rt = r.compose(&t);
    assert_ne!(tr, rt);
    // t then r leaves the translation column alone...
    assert_eq!((tr.m03, tr.m13, tr.m23), (1, 2, 3));
    // ...while r after t rotates it.
    assert_eq!((rt.m03, rt.m13, rt.m23), (3, 2, -1));
}

#[test]
fn composition_wraps_instead_of_overflowing() {
    let big = Mat4::from_scale(i64::MAX);
    let two = Mat4::from_scale(2);
    let prod = big.compose(&two);
    assert_eq!(prod.m00, i64::MAX.wrapping_mul(2));
    assert_eq!(prod.m00, -2);
}

#[test]
fn world_transform_of_child_is_parent_world_composed_with_local() {
    let m0 = Mat4::from_translation(1, 2, 3);
    let m1 = rot90_y();
    let mut t: Tree<Model> = Tree::new();
    let root = Node::create(&mut t, Model::create(1, m0), None);
    let child = Node::create(&mut t, Model::create(2, m1), Some(root));
    let graph = SceneGraph { root };
    update_world_transforms(&mut t, &graph);
    // The root's world transform is its local transform.
    assert_eq!(t.get(root).data.world_mat, m0);
    // The child's is m0 composed with m1 — in that order; m1 then m0
    // would differ, since the two do not commute.
    assert_eq!(t.get(child).data.world_mat, m0.compose(&m1));
    assert_ne!(t.get(child).data.world_mat, m1.compose(&m0));
}

#[test]
fn world_transforms_compose_down_a_chain() {
    let m0 = Mat4::from_translation(1, 2, 3);
    let m1 = rot90_y();
    let m2 = Mat4::from_scale(2);
    let mut t: Tree<Model> = Tree::new();
    let root = Node::create(&mut t, Model::create(1, m0), None);
    let child = Node::create(&mut t, Model::create(2, m1), Some(root));
    let grandchild = Node::create(&mut t, Model::create(3, m2), Some(child));
    update_world_transforms(&mut t, &SceneGraph { root });
    assert_eq!(t.get(grandchild).data.world_mat, m0.compose(&m1).compose(&m2));
    // Local transforms are untouched by the pass.
    assert_eq!(t.get(root).data.model_mat, m0);
    assert_eq!(t.get(child).data.model_mat, m1);
    assert_eq!(t.get(grandchild).data.model_mat, m2);
}

#[test]
fn pass_leaves_other_scene_graphs_alone() {
    let mut t: Tree<Model> = Tree::new();
    let root1 = Node::create(&mut t, Model::create(1, Mat4::from_translation(1, 0, 0)), None);
    let root2 = Node::create(&mut t, Model::create(2, Mat4::from_translation(0, 1, 0)), None);
    let other = Node::create(&mut t, Model::create(3, Mat4::from_scale(4)), Some(root2));
    update_world_transforms(&mut t, &SceneGraph { root: root1 });
    // The second layer's nodes keep their initial world transforms.
    assert_eq!(t.get(root2).data.world_mat, Mat4::identity());
    assert_eq!(t.get(other).data.world_mat, Mat4::identity());
    assert_eq!(t.get(root1).data.world_mat, Mat4::from_translation(1, 0, 0));
}

#[test]
fn model_carries_its_payload_contract() {
    let m = Model::create(42, Mat4::from_scale(3));
    assert_eq!(m.identify(), 42);
    assert_eq!(m.get_model_matrix(), Mat4::from_scale(3));
    assert_eq!(m.get_world_matrix(), Mat4::identity());
    let m2 = m.set_world_matrix(Mat4::from_translation(9, 9, 9));
    assert_eq!(m2.get_world_matrix(), Mat4::from_translation(9, 9, 9));
    assert_eq!(m2.get_model_matrix(), Mat4::from_scale(3));
    assert_eq!(m2.identify(), 42);
}

#[test]
fn state_queues_render_layers_in_order() {
    let mut t: Tree<Model> = Tree::new();
    let root1 = Node::create(&mut t, Model::create(1, Mat4::identity()), None);
    let root2 = Node::create(&mut t, Model::create(2, Mat4::identity()), None);
    let mut s = State::new();
    assert_eq!(s.render_layers.len(), 0);
    s.queue_render_layer(SceneGraph { root: root1 });
    s.queue_render_layer(SceneGraph { root: root2 });
    assert_eq!(s.render_layers.len(), 2);
    assert_eq!(s.render_layers[0].root, root1);
    assert_eq!(s.render_layers[1].root, root2);
    s.clear_render_layers();
    assert_eq!(s.render_layers.len(), 0);
}

#[test]
fn draw_modes_are_distinguishable() {
    let modes = [DrawMode::Wireframe, DrawMode::Points, DrawMode::Colored];
    assert_ne!(modes[0], modes[1]);
    assert_ne!(modes[1], modes[2]);
    assert_eq!(modes[2], DrawMode::Colored);
}
