//! Widgets that can be registered for automation under a stable id.
//!
//! With automation compiled in every widget is registered under its id. Without it the
//! id is ignored and the plain widget remains, so that call sites are the same either
//! way.

use vstd::prelude::*;

verus! {

/// Which widget to draw.
pub enum WidgetKind {
    Button,
    Label,
}

/// A widget to draw, and the id to register it under.
pub struct Widget<T> {
    pub kind: WidgetKind,
    pub text: T,
    pub register_as: Option<String>,
}

/// What a registered region is.
pub enum WidgetRole {
    Button,
    Label,
    /// Nothing that the toolkit knows.
    Unknown,
}

/// What is registered of a region that was painted by hand.
pub struct Registration {
    pub id: String,
    pub role: WidgetRole,
    pub label: Option<String>,
    pub visible: bool,
}

/// Whether widgets are registered: if the feature is on and the target is native.
pub fn automated(feature: bool, wasm: bool) -> (on: bool)
    ensures
        on == (feature && !wasm),
{
    feature && !wasm
}

/// Whether a widget has this text and is registered under this id exactly if
/// automation is on.
pub open spec fn drawn_as<T>(widget: Widget<T>, automation: bool, id: Seq<char>, text: T) -> bool {
    &&& widget.text == text
    &&& widget.register_as is Some <==> automation
    &&& widget.register_as matches Some(name) ==> name@ == id
}

/// A button labelled `text`, registered for automation as `id`.
pub fn button<T>(automation: bool, id: &str, text: T) -> (widget: Widget<T>)
    ensures
        widget.kind is Button,
        drawn_as(widget, automation, id@, text),
        widget.text == text,
        automation ==> (widget.register_as matches Some(name) && name@ == id@),
        !automation ==> widget.register_as is None,
{
    let register_as = if automation {
        Some(id.to_owned())
    } else {
        None
    };
    Widget { kind: WidgetKind::Button, text, register_as }
}

/// A label showing `text`, registered for automation as `id`.
pub fn label<T>(automation: bool, id: &str, text: T) -> (widget: Widget<T>)
    ensures
        widget.kind is Label,
        drawn_as(widget, automation, id@, text),
        widget.text == text,
        automation ==> (widget.register_as matches Some(name) && name@ == id@),
        !automation ==> widget.register_as is None,
{
    let register_as = if automation {
        Some(id.to_owned())
    } else {
        None
    };
    Widget { kind: WidgetKind::Label, text, register_as }
}

/// How to register a region that was painted by hand: as a visible widget of unknown
/// role with the given label, or not at all without automation.
pub fn track(automation: bool, id: &str, role_label: &str) -> (registration: Option<Registration>)
    ensures
        registration is Some <==> automation,
        registration matches Some(entry) ==> {
            &&& entry.id@ == id@
            &&& entry.role is Unknown
            &&& entry.label matches Some(label) && label@ == role_label@
            &&& entry.visible
        },
{
    if automation {
        Some(
            Registration {
                id: id.to_owned(),
                role: WidgetRole::Unknown,
                label: Some(role_label.to_owned()),
                visible: true,
            },
        )
    } else {
        None
    }
}

/// Without automation the id makes no difference: whatever the ids, the same text
/// gives the same unregistered widget.
pub proof fn law_id_is_ignored_without_automation<T>(
    a: Widget<T>,
    b: Widget<T>,
    id_a: Seq<char>,
    id_b: Seq<char>,
    text: T,
)
    requires
        a.kind == b.kind,
        drawn_as(a, false, id_a, text),
        drawn_as(b, false, id_b, text),
    ensures
        a == b,
        a.register_as is None,
{
}

/// With automation a widget is found under its id and no other: it keeps its text, is
/// registered under the id it was drawn with, and so widgets of different ids do not
/// share a registration.
pub proof fn law_id_is_kept_with_automation<T>(
    a: Widget<T>,
    b: Widget<T>,
    id_a: Seq<char>,
    id_b: Seq<char>,
    text_a: T,
    text_b: T,
)
    requires
        drawn_as(a, true, id_a, text_a),
        drawn_as(b, true, id_b, text_b),
    ensures
        a.text == text_a,
        a.register_as matches Some(name) && name@ == id_a,
        (a.register_as->0@ == b.register_as->0@) == (id_a == id_b),
{
}

} // verus!
