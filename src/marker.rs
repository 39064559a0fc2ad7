//! Directive markers: the demo controls that a slide asks for.

use vstd::prelude::*;
use crate::text::{chars_equal, chars_of};

verus! {

/// A parsed directive line of a slide.
#[derive(Debug, PartialEq, Eq)]
pub enum SlideMarker {
    /// Show a counter with `-` and `+` buttons.
    CounterExample,
    /// Show a few labels laid out in a row.
    UiExample,
    /// Show the toggle switch.
    ToggleWidget,
    /// A directive whose token is not known; it keeps the token for display.
    UnknownMarker(String),
}

/// The mathematical value of a marker.
pub enum MarkerView {
    CounterExample,
    UiExample,
    ToggleWidget,
    UnknownMarker(Seq<char>),
}

impl View for SlideMarker {
    type V = MarkerView;

    open spec fn view(&self) -> MarkerView {
        match self {
            SlideMarker::CounterExample => MarkerView::CounterExample,
            SlideMarker::UiExample => MarkerView::UiExample,
            SlideMarker::ToggleWidget => MarkerView::ToggleWidget,
            SlideMarker::UnknownMarker(t) => MarkerView::UnknownMarker(t@),
        }
    }
}

/// The marker that a directive token stands for: the known tokens match
/// exactly (case-sensitive), any other token is kept verbatim as unknown.
pub open spec fn marker_of(token: Seq<char>) -> MarkerView {
    if token == "counter_example"@ {
        MarkerView::CounterExample
    } else if token == "ui_example"@ {
        MarkerView::UiExample
    } else if token == "toggle_widget"@ {
        MarkerView::ToggleWidget
    } else {
        MarkerView::UnknownMarker(token)
    }
}

impl SlideMarker {
    /// Classifies a directive token; this never fails.
    pub fn from_token(token: String) -> (r: SlideMarker)
        ensures
            r@ == marker_of(token@),
    {
        let v = chars_of(token.as_str());
        let n = v.len();
        assert(v@.subrange(0, n as int) =~= token@);
        if chars_equal(&v, 0, n, "counter_example") {
            SlideMarker::CounterExample
        } else if chars_equal(&v, 0, n, "ui_example") {
            SlideMarker::UiExample
        } else if chars_equal(&v, 0, n, "toggle_widget") {
            SlideMarker::ToggleWidget
        } else {
            SlideMarker::UnknownMarker(token)
        }
    }
}

} // verus!
