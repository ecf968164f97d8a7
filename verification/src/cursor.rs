//! The set of CSS cursors a component may request while the mouse hovers
//! over its claimed region.
//!
//! The variant names mirror the CSS keywords (with `-` written as `_`), so
//! the conversion to a CSS value is purely mechanical.

use vstd::prelude::*;

verus! {

#[derive(Clone, PartialEq, Debug)]
#[allow(non_camel_case_types)]
pub enum Cursor {
    ALIAS,
    ALL_SCROLL,
    AUTO,
    CELL,
    CONTEXT_MENU,
    COLL_RESIZE,
    COPY,
    CROSSHAIR,
    DEFAULT,
    E_RESIZE,
    EW_RESIZE,
    GRAB,
    GRABBING,
    HELP,
    MOVE,
    N_RESIZE,
    NE_RESIZE,
    NESW_RESIZE,
    NS_RESIZE,
    NW_RESIZE,
    NWSE_RESIZE,
    NO_DROP,
    NONE,
    NOT_ALLOWED,
    POINTER,
    PROGRESS,
    ROW_RESIZE,
    S_RESIZE,
    SE_RESIZE,
    SW_RESIZE,
    TEXT,
    URL(String),
    VERTICAL_TEXT,
    W_RESIZE,
    WAIT,
    ZOOM_IN,
    ZOOM_OUT,
    INITIAL,
    INHERIT,
}

impl Cursor {
    /// The CSS keyword for each cursor.  URL cursors have no keyword.
    pub open spec fn spec_css_value(self) -> Seq<char> {
        match self {
            Cursor::ALIAS => "alias"@,
            Cursor::ALL_SCROLL => "all-scroll"@,
            Cursor::AUTO => "auto"@,
            Cursor::CELL => "cell"@,
            Cursor::CONTEXT_MENU => "context-menu"@,
            Cursor::COLL_RESIZE => "coll-resize"@,
            Cursor::COPY => "copy"@,
            Cursor::CROSSHAIR => "crosshair"@,
            Cursor::DEFAULT => "default"@,
            Cursor::E_RESIZE => "e-resize"@,
            Cursor::EW_RESIZE => "ew-resize"@,
            Cursor::GRAB => "grab"@,
            Cursor::GRABBING => "grabbing"@,
            Cursor::HELP => "help"@,
            Cursor::MOVE => "move"@,
            Cursor::N_RESIZE => "n-resize"@,
            Cursor::NE_RESIZE => "ne-resize"@,
            Cursor::NESW_RESIZE => "nesw-resize"@,
            Cursor::NS_RESIZE => "ns-resize"@,
            Cursor::NW_RESIZE => "nw-resize"@,
            Cursor::NWSE_RESIZE => "nwse-resize"@,
            Cursor::NO_DROP => "no-drop"@,
            Cursor::NONE => "none"@,
            Cursor::NOT_ALLOWED => "not-allowed"@,
            Cursor::POINTER => "pointer"@,
            Cursor::PROGRESS => "progress"@,
            Cursor::ROW_RESIZE => "row-resize"@,
            Cursor::S_RESIZE => "s-resize"@,
            Cursor::SE_RESIZE => "se-resize"@,
            Cursor::SW_RESIZE => "sw-resize"@,
            Cursor::TEXT => "text"@,
            Cursor::URL(_) => Seq::empty(),
            Cursor::VERTICAL_TEXT => "vertical-text"@,
            Cursor::W_RESIZE => "w-resize"@,
            Cursor::WAIT => "wait"@,
            Cursor::ZOOM_IN => "zoom-in"@,
            Cursor::ZOOM_OUT => "zoom-out"@,
            Cursor::INITIAL => "initial"@,
            Cursor::INHERIT => "inherit"@,
        }
    }

    /// The CSS value naming this cursor.  URL cursors are not supported and
    /// are excluded by the precondition.
    pub fn to_css_value(&self) -> (r: String)
        requires
            !(self is URL),
        ensures
            r@ == self.spec_css_value(),
    {
        match self {
            Cursor::ALIAS => "alias".to_owned(),
            Cursor::ALL_SCROLL => "all-scroll".to_owned(),
            Cursor::AUTO => "auto".to_owned(),
            Cursor::CELL => "cell".to_owned(),
            Cursor::CONTEXT_MENU => "context-menu".to_owned(),
            Cursor::COLL_RESIZE => "coll-resize".to_owned(),
            Cursor::COPY => "copy".to_owned(),
            Cursor::CROSSHAIR => "crosshair".to_owned(),
            Cursor::DEFAULT => "default".to_owned(),
            Cursor::E_RESIZE => "e-resize".to_owned(),
            Cursor::EW_RESIZE => "ew-resize".to_owned(),
            Cursor::GRAB => "grab".to_owned(),
            Cursor::GRABBING => "grabbing".to_owned(),
            Cursor::HELP => "help".to_owned(),
            Cursor::MOVE => "move".to_owned(),
            Cursor::N_RESIZE => "n-resize".to_owned(),
            Cursor::NE_RESIZE => "ne-resize".to_owned(),
            Cursor::NESW_RESIZE => "nesw-resize".to_owned(),
            Cursor::NS_RESIZE => "ns-resize".to_owned(),
            Cursor::NW_RESIZE => "nw-resize".to_owned(),
            Cursor::NWSE_RESIZE => "nwse-resize".to_owned(),
            Cursor::NO_DROP => "no-drop".to_owned(),
            Cursor::NONE => "none".to_owned(),
            Cursor::NOT_ALLOWED => "not-allowed".to_owned(),
            Cursor::POINTER => "pointer".to_owned(),
            Cursor::PROGRESS => "progress".to_owned(),
            Cursor::ROW_RESIZE => "row-resize".to_owned(),
            Cursor::S_RESIZE => "s-resize".to_owned(),
            Cursor::SE_RESIZE => "se-resize".to_owned(),
            Cursor::SW_RESIZE => "sw-resize".to_owned(),
            Cursor::TEXT => "text".to_owned(),
            Cursor::URL(_) => {
                proof {
                    assert(false);
                }
                String::new()
            },
            Cursor::VERTICAL_TEXT => "vertical-text".to_owned(),
            Cursor::W_RESIZE => "w-resize".to_owned(),
            Cursor::WAIT => "wait".to_owned(),
            Cursor::ZOOM_IN => "zoom-in".to_owned(),
            Cursor::ZOOM_OUT => "zoom-out".to_owned(),
            Cursor::INITIAL => "initial".to_owned(),
            Cursor::INHERIT => "inherit".to_owned(),
        }
    }
}

} // verus!
