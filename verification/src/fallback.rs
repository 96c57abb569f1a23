//! The platform fallback chain: a capability that produces an ordered
//! family-name sequence for a locale and script. Distinct implementations
//! are held by value; the engine computes its chain once at construction.

use vstd::prelude::*;

verus! {

/// Produces ordered family-name fallback sequences.
pub trait Fallback {
    /// Ordered family names tried for any text, most preferred first.
    fn common_fallback(&self) -> Vec<String>;

    /// Ordered family names tried for text in the given script, most
    /// preferred first.
    fn script_fallback(&self, script: u32, locale: &str) -> Vec<String>;

    /// Family names never to use as fallbacks.
    fn forbidden_fallback(&self) -> Vec<String>;
}

/// The platform's default fallback ordering.
#[derive(Clone, Copy, Debug)]
pub struct PlatformFallback;

impl Fallback for PlatformFallback {
    fn common_fallback(&self) -> Vec<String> {
        let mut v: Vec<String> = Vec::new();
        v.push("Noto Sans".to_owned());
        v.push("DejaVu Sans".to_owned());
        v.push("FreeSans".to_owned());
        v
    }

    fn script_fallback(&self, script: u32, locale: &str) -> Vec<String> {
        Vec::new()
    }

    fn forbidden_fallback(&self) -> Vec<String> {
        Vec::new()
    }
}

/// The fallback chain computed at engine construction: the common list,
/// the forbidden list, and one list per requested script.
#[derive(Debug)]
pub struct Fallbacks {
    /// Ordered family names tried for any text.
    pub common: Vec<String>,
    /// Family names never to use.
    pub forbidden: Vec<String>,
    /// Per-script ordered family names, keyed by script tag.
    pub script: Vec<(u32, Vec<String>)>,
}

impl Fallbacks {
    /// Computes the chain for the given scripts and locale.
    pub fn new<F: Fallback>(fallback: &F, scripts: &[u32], locale: &str) -> (r: Fallbacks)
        ensures
            r.script@.len() == scripts@.len(),
            forall|k: int| 0 <= k < scripts@.len() ==> #[trigger] r.script@[k].0 == scripts@[k],
    {
        let common = fallback.common_fallback();
        let forbidden = fallback.forbidden_fallback();
        let mut script: Vec<(u32, Vec<String>)> = Vec::new();
        let n = scripts.len();
        let mut i: usize = 0;
        while i < n
            invariant
                n == scripts@.len(),
                i <= n,
                script@.len() == i,
                forall|k: int| 0 <= k < i ==> #[trigger] script@[k].0 == scripts@[k],
            decreases n - i,
        {
            let tag = *vstd::slice::slice_index_get(scripts, i);
            script.push((tag, fallback.script_fallback(tag, locale)));
            i = i + 1;
        }
        Fallbacks { common, forbidden, script }
    }

    /// The ordered family names for a script, when one was requested at
    /// construction: the list recorded under that script tag.
    pub fn families_for_script(&self, script: u32) -> (r: Option<&Vec<String>>)
        ensures
            r matches Some(v) ==> exists|k: int|
                0 <= k < self.script@.len() && #[trigger] self.script@[k].0 == script && *v
                    == self.script@[k].1,
            r is None ==> forall|k: int|
                0 <= k < self.script@.len() ==> #[trigger] self.script@[k].0 != script,
    {
        let n = self.script.len();
        let mut i: usize = 0;
        while i < n
            invariant
                n == self.script@.len(),
                i <= n,
                forall|k: int| 0 <= k < i ==> #[trigger] self.script@[k].0 != script,
            decreases n - i,
        {
            if self.script[i].0 == script {
                return Some(&self.script[i].1);
            }
            i = i + 1;
        }
        None
    }
}

} // verus!
