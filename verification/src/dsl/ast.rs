//! Syntax tree of Flow3D. Every node keeps the [`Span`] of its defining token,
//! so that what is found out later can point back at the source.

use super::diag::Span;
use crate::model::{opt_view, views};
use vstd::prelude::*;

verus! {

#[derive(Debug, Clone)]
pub struct Scene {
    pub name: String,
    pub name_span: Span,
    pub parts: Vec<Part>,
    pub pipes: Vec<Pipe>,
}

pub struct SceneView {
    pub name: Seq<char>,
    pub name_span: Span,
    pub parts: Seq<PartView>,
    pub pipes: Seq<PipeView>,
}

impl View for Scene {
    type V = SceneView;

    open spec fn view(&self) -> SceneView {
        SceneView {
            name: self.name@,
            name_span: self.name_span,
            parts: views(self.parts@),
            pipes: views(self.pipes@),
        }
    }
}

#[derive(Debug, Clone)]
pub struct Part {
    /// An asset tag (`PUMP-01`) or a prim path (`/A/B/C`).
    pub selector: String,
    pub selector_span: Span,
    pub tags: Vec<Tag>,
    pub metas: Vec<Meta>,
    pub anchors: Vec<Anchor>,
    pub bindings: Vec<Binding>,
}

pub struct PartView {
    pub selector: Seq<char>,
    pub selector_span: Span,
    pub tags: Seq<TagView>,
    pub metas: Seq<MetaView>,
    pub anchors: Seq<AnchorView>,
    pub bindings: Seq<BindingView>,
}

impl View for Part {
    type V = PartView;

    open spec fn view(&self) -> PartView {
        PartView {
            selector: self.selector@,
            selector_span: self.selector_span,
            tags: views(self.tags@),
            metas: views(self.metas@),
            anchors: views(self.anchors@),
            bindings: views(self.bindings@),
        }
    }
}

#[derive(Debug, Clone)]
pub struct Tag {
    pub value: String,
    pub span: Span,
}

pub struct TagView {
    pub value: Seq<char>,
    pub span: Span,
}

impl View for Tag {
    type V = TagView;

    open spec fn view(&self) -> TagView {
        TagView { value: self.value@, span: self.span }
    }
}

/// The value of a metadata key: a string, or a numeral as it was written.
#[derive(Debug, Clone)]
pub enum MetaValue {
    Text(String),
    Number(String),
}

pub enum MetaValueView {
    Text(Seq<char>),
    Number(Seq<char>),
}

impl View for MetaValue {
    type V = MetaValueView;

    open spec fn view(&self) -> MetaValueView {
        match self {
            MetaValue::Text(s) => MetaValueView::Text(s@),
            MetaValue::Number(s) => MetaValueView::Number(s@),
        }
    }
}

#[derive(Debug, Clone)]
pub struct Meta {
    pub key: String,
    pub value: MetaValue,
    pub span: Span,
}

pub struct MetaView {
    pub key: Seq<char>,
    pub value: MetaValueView,
    pub span: Span,
}

impl View for Meta {
    type V = MetaView;

    open spec fn view(&self) -> MetaView {
        MetaView { key: self.key@, value: self.value@, span: self.span }
    }
}

/// An anchor; its coordinates are the numerals of the source.
#[derive(Debug, Clone)]
pub struct Anchor {
    pub name: String,
    pub x: String,
    pub y: String,
    pub z: String,
    pub span: Span,
}

pub struct AnchorView {
    pub name: Seq<char>,
    pub x: Seq<char>,
    pub y: Seq<char>,
    pub z: Seq<char>,
    pub span: Span,
}

impl View for Anchor {
    type V = AnchorView;

    open spec fn view(&self) -> AnchorView {
        AnchorView { name: self.name@, x: self.x@, y: self.y@, z: self.z@, span: self.span }
    }
}

#[derive(Debug, Clone)]
pub struct Binding {
    pub attribute: String,
    pub query: String,
    pub unit: Option<String>,
    /// The numeral of the time to live, in milliseconds.
    pub ttl_ms: Option<String>,
    pub priority: Option<String>,
    /// Span of the bound attribute's name.
    pub span: Span,
}

pub struct BindingView {
    pub attribute: Seq<char>,
    pub query: Seq<char>,
    pub unit: Option<Seq<char>>,
    pub ttl_ms: Option<Seq<char>>,
    pub priority: Option<Seq<char>>,
    pub span: Span,
}

impl View for Binding {
    type V = BindingView;

    open spec fn view(&self) -> BindingView {
        BindingView {
            attribute: self.attribute@,
            query: self.query@,
            unit: opt_view(self.unit),
            ttl_ms: opt_view(self.ttl_ms),
            priority: opt_view(self.priority),
            span: self.span,
        }
    }
}

#[derive(Debug, Clone)]
pub struct Pipe {
    pub from: Endpoint,
    pub to: Endpoint,
    pub span: Span,
}

pub struct PipeView {
    pub from: EndpointView,
    pub to: EndpointView,
    pub span: Span,
}

impl View for Pipe {
    type V = PipeView;

    open spec fn view(&self) -> PipeView {
        PipeView { from: self.from@, to: self.to@, span: self.span }
    }
}

#[derive(Debug, Clone)]
pub struct Endpoint {
    pub part: String,
    pub anchor: String,
    pub span: Span,
}

pub struct EndpointView {
    pub part: Seq<char>,
    pub anchor: Seq<char>,
    pub span: Span,
}

impl View for Endpoint {
    type V = EndpointView;

    open spec fn view(&self) -> EndpointView {
        EndpointView { part: self.part@, anchor: self.anchor@, span: self.span }
    }
}

} // verus!
