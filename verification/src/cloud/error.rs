//! Errors of the fleet stack.
use vstd::prelude::*;
use crate::num::decimal::lemma_decimal_digits;
use crate::runtime::mode::{mode_name, Mode};
use crate::text::{
    decimal, is_digit, is_space, lemma_words_last, lemma_words_push, one_word, push_decimal, spaces,
    words,
};

verus! {

/// Errors surfaced by the cloud/fleet stack.
#[derive(Debug)]
pub enum CloudError {
    /// Underlying I/O failure (socket, file, event loop).
    Io(String),
    /// JSON (de)serialization failure.
    Json(String),
    /// HTTP request parsing failure.
    Http(String),
    /// A unit id is not known to the fleet.
    NotFound(u64),
    /// A unit id is already provisioned.
    AlreadyExists(u64),
    /// A requested mode transition is forbidden by the transition table.
    ModeDisallowed { from: Mode, to: Mode },
    /// The transport rejected a command send.
    Transport(String),
    /// The recorder rejected a write.
    Recorder(String),
    /// A capability is not available.
    Unsupported(&'static str),
}

/// What a [`CloudError`] holds.
pub ghost enum CloudErrorView {
    Io(Seq<char>),
    Json(Seq<char>),
    Http(Seq<char>),
    NotFound(u64),
    AlreadyExists(u64),
    ModeDisallowed { from: Mode, to: Mode },
    Transport(Seq<char>),
    Recorder(Seq<char>),
    Unsupported(Seq<char>),
}

impl View for CloudError {
    type V = CloudErrorView;

    open spec fn view(&self) -> CloudErrorView {
        match *self {
            CloudError::Io(e) => CloudErrorView::Io(e@),
            CloudError::Json(e) => CloudErrorView::Json(e@),
            CloudError::Http(e) => CloudErrorView::Http(e@),
            CloudError::NotFound(id) => CloudErrorView::NotFound(id),
            CloudError::AlreadyExists(id) => CloudErrorView::AlreadyExists(id),
            CloudError::ModeDisallowed { from, to } => CloudErrorView::ModeDisallowed { from, to },
            CloudError::Transport(e) => CloudErrorView::Transport(e@),
            CloudError::Recorder(e) => CloudErrorView::Recorder(e@),
            CloudError::Unsupported(e) => CloudErrorView::Unsupported(e@),
        }
    }
}

/// The message of an error.
pub open spec fn error_text(e: CloudErrorView) -> Seq<char> {
    match e {
        CloudErrorView::Io(e) => "io error: "@ + e,
        CloudErrorView::Json(e) => "json error: "@ + e,
        CloudErrorView::Http(e) => "http error: "@ + e,
        CloudErrorView::NotFound(id) => "unit "@ + decimal(id as nat) + " not found"@,
        CloudErrorView::AlreadyExists(id) => "unit "@ + decimal(id as nat) + " already exists"@,
        CloudErrorView::ModeDisallowed { from, to } => "mode transition "@ + mode_name(from)
            + " -> "@ + mode_name(to) + " not permitted"@,
        CloudErrorView::Transport(e) => "transport error: "@ + e,
        CloudErrorView::Recorder(e) => "recorder error: "@ + e,
        CloudErrorView::Unsupported(e) => "unsupported: "@ + e,
    }
}

impl CloudError {
    /// The message of the error.
    pub fn message(&self) -> (r: String)
        ensures
            r@ == error_text(self@),
    {
        match self {
            CloudError::Io(e) => joined("io error: ", e.as_str()),
            CloudError::Json(e) => joined("json error: ", e.as_str()),
            CloudError::Http(e) => joined("http error: ", e.as_str()),
            CloudError::NotFound(id) => {
                let mut s: String = "unit ".to_owned();
                push_decimal(&mut s, *id);
                s.append(" not found");
                s
            },
            CloudError::AlreadyExists(id) => {
                let mut s: String = "unit ".to_owned();
                push_decimal(&mut s, *id);
                s.append(" already exists");
                s
            },
            CloudError::ModeDisallowed { from, to } => {
                let mut s: String = "mode transition ".to_owned();
                s.append(from.name());
                s.append(" -> ");
                s.append(to.name());
                s.append(" not permitted");
                s
            },
            CloudError::Transport(e) => joined("transport error: ", e.as_str()),
            CloudError::Recorder(e) => joined("recorder error: ", e.as_str()),
            CloudError::Unsupported(e) => joined("unsupported: ", e),
        }
    }
}

fn joined(a: &str, b: &str) -> (r: String)
    ensures
        r@ == a@ + b@,
{
    let mut s: String = a.to_owned();
    s.append(b);
    s
}

/// A transport failure for an address.
pub open spec fn transport_failure(addr: Seq<char>, e: Seq<char>) -> CloudErrorView {
    CloudErrorView::Transport(addr + ": "@ + e)
}

/// Formats a transport send failure from an address and an error.
pub fn transport_err(addr: &str, e: &str) -> (r: CloudError)
    ensures
        r@ == transport_failure(addr@, e@),
{
    let mut s: String = addr.to_owned();
    s.append(": ");
    s.append(e);
    CloudError::Transport(s)
}

proof fn lemma_error_words()
    ensures
        "mode transition "@ == "mode"@ + spaces(1) + "transition"@ + spaces(1),
        " -> "@ == spaces(1) + "->"@ + spaces(1),
        " not permitted"@ == spaces(1) + "not"@ + spaces(1) + "permitted"@,
        "unit "@ == "unit"@ + spaces(1),
        " not found"@ == spaces(1) + "not"@ + spaces(1) + "found"@,
        " already exists"@ == spaces(1) + "already"@ + spaces(1) + "exists"@,
        one_word("mode"@),
        one_word("transition"@),
        one_word("->"@),
        one_word("not"@),
        one_word("permitted"@),
        one_word("unit"@),
        one_word("found"@),
        one_word("already"@),
        one_word("exists"@),
        one_word("AUTO"@),
        one_word("ASSIST"@),
        one_word("TELEOP"@),
        one_word("ESTOP"@),
{
    reveal_strlit("mode transition ");
    reveal_strlit("mode");
    reveal_strlit("transition");
    reveal_strlit(" -> ");
    reveal_strlit("->");
    reveal_strlit(" not permitted");
    reveal_strlit("not");
    reveal_strlit("permitted");
    reveal_strlit("unit ");
    reveal_strlit("unit");
    reveal_strlit(" not found");
    reveal_strlit("found");
    reveal_strlit(" already exists");
    reveal_strlit("already");
    reveal_strlit("exists");
    reveal_strlit("AUTO");
    reveal_strlit("ASSIST");
    reveal_strlit("TELEOP");
    reveal_strlit("ESTOP");
}

/// A refused mode change names the mode that the unit is in and then the one that
/// it was to go to.
pub proof fn law_refused_change_in_words(from: Mode, to: Mode)
    ensures
        words(error_text(CloudErrorView::ModeDisallowed { from, to })) == seq![
            "mode"@,
            "transition"@,
            mode_name(from),
            "->"@,
            mode_name(to),
            "not"@,
            "permitted"@,
        ],
{
    lemma_error_words();
    let a = mode_name(from);
    let b = mode_name(to);
    lemma_words_last("mode"@);
    let t1 = "mode"@ + spaces(1) + "transition"@;
    lemma_words_push("mode"@, 1, "transition"@);
    let t2 = t1 + spaces(1) + a;
    lemma_words_push(t1, 1, a);
    let t3 = t2 + spaces(1) + "->"@;
    lemma_words_push(t2, 1, "->"@);
    let t4 = t3 + spaces(1) + b;
    lemma_words_push(t3, 1, b);
    let t5 = t4 + spaces(1) + "not"@;
    lemma_words_push(t4, 1, "not"@);
    let t6 = t5 + spaces(1) + "permitted"@;
    lemma_words_push(t5, 1, "permitted"@);
    let text = error_text(CloudErrorView::ModeDisallowed { from, to });
    assert(text =~= t6);
    assert(words(text) =~= seq!["mode"@, "transition"@, a, "->"@, b, "not"@, "permitted"@]);
}

/// A unit that is not there, or is there already, is named by its id.
pub proof fn law_units_are_named_by_id(id: u64)
    ensures
        words(error_text(CloudErrorView::NotFound(id))) == seq![
            "unit"@,
            decimal(id as nat),
            "not"@,
            "found"@,
        ],
        words(error_text(CloudErrorView::AlreadyExists(id))) == seq![
            "unit"@,
            decimal(id as nat),
            "already"@,
            "exists"@,
        ],
{
    lemma_error_words();
    let d = decimal(id as nat);
    lemma_decimal_digits(id as nat);
    assert forall|i: int| 0 <= i < d.len() implies !is_space(#[trigger] d[i]) by {
        assert(is_digit(d[i]));
    }
    lemma_words_last("unit"@);
    let t1 = "unit"@ + spaces(1) + d;
    lemma_words_push("unit"@, 1, d);
    let t2 = t1 + spaces(1) + "not"@;
    lemma_words_push(t1, 1, "not"@);
    let t3 = t2 + spaces(1) + "found"@;
    lemma_words_push(t2, 1, "found"@);
    assert(error_text(CloudErrorView::NotFound(id)) =~= t3);
    assert(words(t3) =~= seq!["unit"@, d, "not"@, "found"@]);
    let t4 = t1 + spaces(1) + "already"@;
    lemma_words_push(t1, 1, "already"@);
    let t5 = t4 + spaces(1) + "exists"@;
    lemma_words_push(t4, 1, "exists"@);
    assert(error_text(CloudErrorView::AlreadyExists(id)) =~= t5);
    assert(words(t5) =~= seq!["unit"@, d, "already"@, "exists"@]);
}

} // verus!
