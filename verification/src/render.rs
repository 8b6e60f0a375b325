use vstd::prelude::*;
use vstd::view::View as SpecView;
use std::rc::Rc;
use crate::view::Vertex;

verus! {

/// Relies on `Rc::clone`: the clone is a new handle to the same allocation,
/// so it carries the same value.
#[verifier::external_body]
pub(crate) fn share_handle(rc: &Rc<Renderable>) -> (r: Rc<Renderable>)
    ensures
        r == *rc,
{
    rc.clone()
}

/// What the renderer should draw onto a mesh: the rasterized outline of one
/// character, or the solid border colour.
#[derive(Clone, Copy, Debug, PartialEq, Eq, Structural)]
pub enum MeshSource {
    Glyph(char),
    Border,
}

/// A textured triangle list in clip space: vertices, triangle indices into
/// them, and what to draw on it.  Uploading it to the graphics device is the
/// renderer's business.
pub struct Mesh {
    pub vertices: Vec<Vertex>,
    pub indices: Vec<u16>,
    pub source: MeshSource,
}

/// The geometry a widget tree produces for one frame: single meshes, ordered
/// groups (drawn in order), and shares of memoized geometry.
pub enum Renderable {
    Mesh(Mesh),
    Group(Vec<Renderable>),
    Shared(Rc<Renderable>),
}

/// The mathematical shape of a `Mesh`.
pub struct MeshModel {
    pub vertices: Seq<Vertex>,
    pub indices: Seq<u16>,
    pub source: MeshSource,
}

/// The mathematical shape of produced geometry; shares are transparent, so
/// two renders that reuse one allocation have the same model.
pub enum GeomModel {
    Mesh(MeshModel),
    Group(Seq<GeomModel>),
}

pub open spec fn geom_models(l: Seq<Renderable>) -> Seq<GeomModel>
    decreases l,
{
    if l.len() == 0 {
        Seq::empty()
    } else {
        geom_models(l.drop_last()).push(geom_model(l.last()))
    }
}

pub open spec fn geom_model(r: Renderable) -> GeomModel
    decreases r,
{
    match r {
        Renderable::Mesh(m) => GeomModel::Mesh(MeshModel {
            vertices: m.vertices@,
            indices: m.indices@,
            source: m.source,
        }),
        Renderable::Group(l) => GeomModel::Group(geom_models(l@)),
        Renderable::Shared(rc) => geom_model(*rc),
    }
}

impl vstd::view::View for Renderable {
    type V = GeomModel;

    open spec fn view(&self) -> GeomModel {
        geom_model(*self)
    }
}

/// `geom_models` maps the sequence pointwise.
pub proof fn lemma_geom_models_index(l: Seq<Renderable>)
    ensures
        geom_models(l).len() == l.len(),
        forall|i: int| 0 <= i < l.len() ==> #[trigger] geom_models(l)[i] == geom_model(l[i]),
    decreases l,
{
    if l.len() > 0 {
        lemma_geom_models_index(l.drop_last());
    }
}

} // verus!
