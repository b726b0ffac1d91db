//! The preprocessor: its name, which renderers it works with, and the rewrite
//! of every chapter of a book.

use crate::delimiter::{rendered, InlinePattern};
use vstd::prelude::*;

verus! {

/// The name under which the preprocessor is known: `inline-mathjax`.
pub open spec fn preprocessor_name() -> Seq<char> {
    seq!['i', 'n', 'l', 'i', 'n', 'e', '-', 'm', 'a', 't', 'h', 'j', 'a', 'x']
}

/// The one renderer name that is turned down: `not-supported`.
pub open spec fn unsupported_renderer() -> Seq<char> {
    seq!['n', 'o', 't', '-', 's', 'u', 'p', 'p', 'o', 'r', 't', 'e', 'd']
}

/// Whether two strings hold the same characters.
pub fn same_text(a: &str, b: &str) -> (r: bool)
    ensures
        r == (a@ == b@),
{
    let n = a.unicode_len();
    if n != b.unicode_len() {
        return false;
    }
    let mut i: usize = 0;
    while i < n
        invariant
            n == a@.len() == b@.len(),
            0 <= i <= n,
            forall|j: int| 0 <= j < i ==> a@[j] == b@[j],
        decreases n - i,
    {
        if a.get_char(i) != b.get_char(i) {
            return false;
        }
        i = i + 1;
    }
    assert(a@ == b@);
    true
}

/// The inline math preprocessor, with its compiled delimiter pattern.
pub struct Mathjax {
    pattern: InlinePattern,
}

impl Mathjax {
    /// Builds the preprocessor, compiling its delimiter pattern once. Every
    /// `Mathjax` rewrites exactly as `rendered` says (see `rewrite`).
    pub fn new() -> (r: Mathjax) {
        Mathjax { pattern: InlinePattern::new() }
    }

    pub fn name(&self) -> (r: &'static str)
        ensures
            r@ == preprocessor_name(),
    {
        let r = "inline-mathjax";
        proof {
            reveal_strlit("inline-mathjax");
        }
        assert(r@ == preprocessor_name());
        r
    }

    /// Every renderer is supported but the one named `not-supported`.
    pub fn supports_renderer(&self, renderer: &str) -> (r: bool)
        ensures
            r == (renderer@ != unsupported_renderer()),
    {
        let refused = "not-supported";
        proof {
            reveal_strlit("not-supported");
        }
        assert(refused@ == unsupported_renderer());
        !same_text(renderer, refused)
    }

    /// Rewrites the delimiters of one text.
    pub fn rewrite(&self, text: &str) -> (r: String)
        ensures
            r@ == rendered(text@),
    {
        self.pattern.rewrite(text)
    }

    /// Rewrites the content of every chapter, each on its own.
    pub fn run(&self, chapters: &mut Vec<String>)
        ensures
            final(chapters)@.len() == old(chapters)@.len(),
            forall|i: int|
                0 <= i < old(chapters)@.len() ==> (#[trigger] final(chapters)@[i])@ == rendered(
                    old(chapters)@[i]@,
                ),
    {
        let mut done: Vec<String> = Vec::new();
        let mut i: usize = 0;
        while i < chapters.len()
            invariant
                chapters@ == old(chapters)@,
                0 <= i <= chapters@.len(),
                done@.len() == i,
                forall|j: int| 0 <= j < i ==> (#[trigger] done@[j])@ == rendered(chapters@[j]@),
            decreases chapters@.len() - i,
        {
            let t = self.pattern.rewrite(chapters[i].as_str());
            done.push(t);
            i = i + 1;
        }
        *chapters = done;
    }
}

} // verus!
