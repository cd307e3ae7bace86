//! User settings: which models are in use.

use vstd::prelude::*;

use crate::text::{chars_of, occurs_at, occurs_in, owned, same_text};

verus! {

broadcast use vstd::string::group_string_axioms;

/// The models the application uses.
#[derive(Clone, Debug, PartialEq, Eq)]
pub struct AppSettings {
    pub active_model: String,
    pub embedding_model: String,
}

impl Default for AppSettings {
    /// phi3:mini for chat and insights, nomic-embed-text for embeddings.
    fn default() -> (s: Self)
        ensures
            s.active_model@ == "phi3:mini"@,
            s.embedding_model@ == "nomic-embed-text"@,
    {
        AppSettings { active_model: owned("phi3:mini"), embedding_model: owned("nomic-embed-text") }
    }
}

impl AppSettings {
    /// Makes `model` the chat model, keeping the embedding model.
    pub fn set_active_model(&mut self, model: String)
        ensures
            final(self).active_model@ == model@,
            final(self).embedding_model@ == old(self).embedding_model@,
    {
        self.active_model = model;
    }
}

/// Whether `n` occurs in `h` at position `i`.
fn chars_match_at(h: &[char], n: &[char], i: usize) -> (b: bool)
    requires
        i + n@.len() <= h@.len(),
    ensures
        b == occurs_at(h@, n@, i as int),
{
    let hl = h.len();
    let mut k: usize = 0;
    while k < n.len()
        invariant
            k <= n@.len(),
            hl == h@.len(),
            i + n@.len() <= h@.len(),
            forall|t: int| 0 <= t < k ==> h@[i + t] == n@[t],
        decreases n@.len() - k,
    {
        if h[i + k] != n[k] {
            assert(h@.subrange(i as int, i + n@.len())[k as int] != n@[k as int]);
            return false;
        }
        k = k + 1;
    }
    assert(h@.subrange(i as int, i + n@.len()) == n@);
    true
}

/// Whether `needle` occurs in `hay`, as `str::contains` says.
pub fn contains_text(hay: &str, needle: &str) -> (b: bool)
    ensures
        b == occurs_in(hay@, needle@),
{
    let h = chars_of(hay);
    let n = chars_of(needle);
    if n.len() == 0 {
        assert(occurs_at(hay@, needle@, 0)) by {
            assert(hay@.subrange(0, 0) == needle@);
        }
        return true;
    }
    if n.len() > h.len() {
        return false;
    }
    let hl = h.len();
    let last = hl - n.len();
    let mut i: usize = 0;
    while i <= last
        invariant
            n@.len() > 0,
            hl == h@.len(),
            last + n@.len() == h@.len(),
            i <= last + 1,
            h@ == hay@,
            n@ == needle@,
            forall|j: int| 0 <= j < i ==> !occurs_at(h@, n@, j),
        decreases last + 1 - i,
    {
        if chars_match_at(&h, &n, i) {
            return true;
        }
        i = i + 1;
    }
    false
}

/// Whether Ollama's `/api/tags` answer mentions both configured models.
pub fn models_available(tags_body: &str, settings: &AppSettings) -> (b: bool)
    ensures
        b == (occurs_in(tags_body@, settings.embedding_model@) && occurs_in(
            tags_body@,
            settings.active_model@,
        )),
{
    contains_text(tags_body, settings.embedding_model.as_str()) && contains_text(
        tags_body,
        settings.active_model.as_str(),
    )
}

/// Whether `model` is among the names of the installed models.
pub fn model_is_installed(installed: &[String], model: &str) -> (b: bool)
    ensures
        b == exists|k: int| 0 <= k < installed@.len() && (#[trigger] installed@[k])@ == model@,
{
    let mut k: usize = 0;
    while k < installed.len()
        invariant
            k <= installed@.len(),
            forall|t: int| 0 <= t < k ==> (#[trigger] installed@[t])@ != model@,
        decreases installed@.len() - k,
    {
        if same_text(installed[k].as_str(), model) {
            return true;
        }
        k = k + 1;
    }
    false
}

} // verus!
