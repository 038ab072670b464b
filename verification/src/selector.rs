//! A small CSS-style selector engine.
//!
//! Grammar: whitespace-separated tokens, each either a compound (`:scope`,
//! `*`, or a tag name of letters, digits, `-` and `_`) or the child
//! combinator `>`; two adjacent compounds are joined by the descendant
//! combinator.  Matching threads an optional scope root through every
//! candidate, so `:scope` is the anchor element of a scoped query.

use vstd::prelude::*;
use vstd::string::StrSliceExecFns;
use crate::node::Node;
use crate::strutil::str_eq;
use crate::tree::Tree;

verus! {

/// One compound of a selector.
#[derive(Debug)]
pub enum Part {
    /// `*`: any element.
    Universal,
    /// `:scope`: exactly the scope root of the query.
    Scope,
    /// A tag name.
    Name(String),
}

/// How one compound relates to the one before it.
#[derive(Clone, Copy, PartialEq, Eq, Structural, Debug)]
pub enum Combinator {
    /// Whitespace: any strict ancestor matches the earlier compounds.
    Descendant,
    /// `>`: the parent matches the earlier compounds.
    Child,
}

/// Why a selector string was rejected.
#[derive(Clone, Copy, PartialEq, Eq, Structural, Debug)]
pub enum SelectorError {
    /// No token at all.
    EmptySelector,
    /// A `>` at the start or end, or straight after another `>`.
    StrayCombinator,
    /// A token that is neither `>`, `:scope`, `*` nor a valid tag name.
    InvalidToken,
}

/// A parsed, immutable selector: compounds joined by combinators.
#[derive(Debug)]
pub struct Selector {
    pub parts: Vec<Part>,
    pub combs: Vec<Combinator>,
}

/// Whitespace for the purpose of tokenization.
pub open spec fn is_ws(c: char) -> bool {
    c == ' ' || c == '\t' || c == '\n' || c == '\r'
}

/// Characters allowed in a tag name.
pub open spec fn is_name_char(c: char) -> bool {
    ('a' <= c && c <= 'z') || ('A' <= c && c <= 'Z') || ('0' <= c && c <= '9') || c == '-'
        || c == '_'
}

/// Length of the leading run of non-whitespace characters.
pub open spec fn token_len(s: Seq<char>) -> int
    decreases s.len(),
{
    if s.len() == 0 || is_ws(s[0]) {
        0
    } else {
        1 + token_len(s.drop_first())
    }
}

/// The leading token run never overruns the string.
pub proof fn lemma_token_len_le(s: Seq<char>)
    ensures
        0 <= token_len(s) <= s.len(),
    decreases s.len(),
{
    if s.len() == 0 || is_ws(s[0]) {
    } else {
        lemma_token_len_le(s.drop_first());
    }
}

/// The maximal non-whitespace run starting a string has the length of the
/// first whitespace position (or of the whole string).
pub proof fn lemma_token_len_exact(u: Seq<char>, m: int)
    requires
        0 <= m <= u.len(),
        forall|t: int| 0 <= t < m ==> !is_ws(u[t]),
        m == u.len() || is_ws(u[m]),
    ensures
        token_len(u) == m,
    decreases m,
{
    if m == 0 {
    } else {
        assert(!is_ws(u[0]));
        lemma_token_len_exact(u.drop_first(), m - 1);
    }
}

/// The whitespace-separated tokens of a string, in order.
pub open spec fn split_ws(s: Seq<char>) -> Seq<Seq<char>>
    decreases s.len(),
    via Self_split_ws_decreases
{
    if s.len() == 0 {
        Seq::empty()
    } else if is_ws(s[0]) {
        split_ws(s.drop_first())
    } else {
        seq![s.take(token_len(s))] + split_ws(s.skip(token_len(s)))
    }
}

#[via_fn]
proof fn Self_split_ws_decreases(s: Seq<char>) {
    lemma_token_len_le(s);
    if s.len() > 0 && !is_ws(s[0]) {
        lemma_token_len_le(s.drop_first());
    }
}

/// The token text of `>`.
pub open spec fn child_tok() -> Seq<char> {
    seq!['>']
}

/// The token text of `:scope`.
pub open spec fn scope_tok() -> Seq<char> {
    seq![':', 's', 'c', 'o', 'p', 'e']
}

/// The token text of `*`.
pub open spec fn star_tok() -> Seq<char> {
    seq!['*']
}

/// A non-empty run of tag-name characters.
pub open spec fn valid_name(tk: Seq<char>) -> bool {
    tk.len() > 0 && forall|i: int| 0 <= i < tk.len() ==> is_name_char(#[trigger] tk[i])
}

/// A token standing for a compound.
pub open spec fn compound_ok(tk: Seq<char>) -> bool {
    tk == scope_tok() || tk == star_tok() || valid_name(tk)
}

/// The token sequences that parse: at least one token, every token a
/// compound or `>`, and no `>` leading, trailing or doubled.
pub open spec fn sel_ok(toks: Seq<Seq<char>>) -> bool {
    &&& toks.len() >= 1
    &&& forall|i: int| 0 <= i < toks.len() ==> #[trigger] toks[i] == child_tok() || compound_ok(
        toks[i],
    )
    &&& toks[0] != child_tok()
    &&& toks[toks.len() - 1] != child_tok()
    &&& forall|i: int|
        0 <= i < toks.len() - 1 ==> !(#[trigger] toks[i] == child_tok() && toks[i + 1]
            == child_tok())
}

/// The token text a compound came from.
pub open spec fn part_repr(p: Part) -> Seq<char> {
    match p {
        Part::Universal => star_tok(),
        Part::Scope => scope_tok(),
        Part::Name(s) => s@,
    }
}

/// The token texts a combinator came from (none for descendant).
pub open spec fn comb_repr(c: Combinator) -> Seq<Seq<char>> {
    match c {
        Combinator::Child => seq![child_tok()],
        Combinator::Descendant => Seq::empty(),
    }
}

/// The token texts a whole selector came from.
pub open spec fn sel_toks(parts: Seq<Part>, combs: Seq<Combinator>) -> Seq<Seq<char>>
    decreases parts.len(),
{
    if parts.len() == 0 {
        Seq::empty()
    } else if parts.len() == 1 {
        seq![part_repr(parts[0])]
    } else {
        sel_toks(parts.drop_last(), combs.drop_last()) + comb_repr(combs.last()) + seq![
            part_repr(parts.last()),
        ]
    }
}

impl Selector {
    /// A selector alternates compounds and combinators, starting and ending
    /// with a compound.
    pub open spec fn wf(self) -> bool {
        self.parts@.len() >= 1 && self.combs@.len() == self.parts@.len() - 1
    }
}

/// Checks whether `c` is tokenizer whitespace.
fn ws_char(c: char) -> (r: bool)
    ensures
        r == is_ws(c),
{
    c == ' ' || c == '\t' || c == '\n' || c == '\r'
}

/// Checks whether `c` may appear in a tag name.
fn name_char(c: char) -> (r: bool)
    ensures
        r == is_name_char(c),
{
    ('a' <= c && c <= 'z') || ('A' <= c && c <= 'Z') || ('0' <= c && c <= '9') || c == '-'
        || c == '_'
}

/// Splits a string into its whitespace-separated tokens.
fn tokenize(s: &str) -> (toks: Vec<String>)
    ensures
        toks@.map_values(|t: String| t@) == split_ws(s@),
{
    let n = s.unicode_len();
    let mut toks: Vec<String> = Vec::new();
    let mut i: usize = 0;
    proof {
        assert(s@.skip(0) =~= s@);
    }
    while i < n
        invariant
            n == s@.len(),
            i <= n,
            split_ws(s@) == toks@.map_values(|t: String| t@) + split_ws(s@.skip(i as int)),
        decreases n - i,
    {
        let c = s.get_char(i);
        if ws_char(c) {
            proof {
                assert(s@.skip(i as int).drop_first() =~= s@.skip(i as int + 1));
            }
            i = i + 1;
        } else {
            let mut j = i + 1;
            while j < n && !ws_char(s.get_char(j))
                invariant
                    n == s@.len(),
                    i < j <= n,
                    forall|t: int| i <= t < j ==> !is_ws(s@[t]),
                decreases n - j,
            {
                j = j + 1;
            }
            let tk = s.substring_char(i, j).to_owned();
            proof {
                let u = s@.skip(i as int);
                lemma_token_len_exact(u, j - i);
                assert(u.take(j - i) =~= s@.subrange(i as int, j as int));
                assert(u.skip(j - i) =~= s@.skip(j as int));
                assert(split_ws(u) == seq![tk@] + split_ws(s@.skip(j as int)));
                assert((toks@.push(tk)).map_values(|t: String| t@) =~= toks@.map_values(
                    |t: String| t@,
                ).push(tk@));
                assert(toks@.map_values(|t: String| t@).push(tk@) + split_ws(s@.skip(j as int))
                    =~= toks@.map_values(|t: String| t@) + split_ws(s@.skip(i as int)));
            }
            toks.push(tk);
            i = j;
        }
    }
    proof {
        assert(s@.skip(n as int) =~= Seq::<char>::empty());
        assert(toks@.map_values(|t: String| t@) + split_ws(s@.skip(n as int)) =~= toks@.map_values(
            |t: String| t@,
        ));
    }
    toks
}

/// Checks whether every character of a token may appear in a tag name.
fn valid_name_exec(tk: &String) -> (r: bool)
    ensures
        r == valid_name(tk@),
{
    let n = tk.as_str().unicode_len();
    if n == 0 {
        return false;
    }
    for i in 0..n
        invariant
            n == tk@.len(),
            forall|t: int| 0 <= t < i ==> is_name_char(#[trigger] tk@[t]),
    {
        if !name_char(tk.as_str().get_char(i)) {
            return false;
        }
    }
    true
}

impl Selector {
    /// Parses a selector string.  Succeeds exactly on the token sequences
    /// `sel_ok` admits, and the parsed compounds and combinators spell the
    /// tokens back out.
    pub fn parse(s: &str) -> (r: Result<Selector, SelectorError>)
        ensures
            r is Ok <==> sel_ok(split_ws(s@)),
            match r {
                Result::Ok(sel) => sel.wf() && sel_toks(sel.parts@, sel.combs@) == split_ws(s@),
                Result::Err(e) => match e {
                    SelectorError::EmptySelector => split_ws(s@).len() == 0,
                    SelectorError::InvalidToken => exists|i: int|
                        0 <= i < split_ws(s@).len() && #[trigger] split_ws(s@)[i] != child_tok()
                            && !compound_ok(split_ws(s@)[i]),
                    SelectorError::StrayCombinator => exists|i: int|
                        0 <= i < split_ws(s@).len() && #[trigger] split_ws(s@)[i] == child_tok()
                            && (i == 0 || i == split_ws(s@).len() - 1 || split_ws(s@)[i - 1]
                            == child_tok()),
                },
            },
    {
        let toks = tokenize(s);
        let ghost tseq = split_ws(s@);
        proof {
            reveal_strlit(">");
            reveal_strlit(":scope");
            reveal_strlit("*");
            assert(">"@ =~= child_tok());
            assert(":scope"@ =~= scope_tok());
            assert("*"@ =~= star_tok());
            assert(">"@ == child_tok() && ":scope"@ == scope_tok() && "*"@ == star_tok());
        }
        if toks.len() == 0 {
            return Result::Err(SelectorError::EmptySelector);
        }
        let mut parts: Vec<Part> = Vec::new();
        let mut combs: Vec<Combinator> = Vec::new();
        let mut pending_child = false;
        let n = toks.len();
        for i in 0..n
            invariant
                n == toks@.len(),
                tseq == split_ws(s@),
                tseq == toks@.map_values(|t: String| t@),
                ">"@ == child_tok() && ":scope"@ == scope_tok() && "*"@ == star_tok(),
                n >= 1,
                parts@.len() == 0 ==> combs@.len() == 0 && i == 0 && !pending_child,
                parts@.len() >= 1 ==> combs@.len() == parts@.len() - 1 && i >= 1,
                forall|t: int|
                    0 <= t < i ==> #[trigger] tseq[t] == child_tok() || compound_ok(tseq[t]),
                i > 0 ==> tseq[0] != child_tok(),
                forall|t: int|
                    0 <= t < i - 1 ==> !(#[trigger] tseq[t] == child_tok() && tseq[t + 1]
                        == child_tok()),
                pending_child <==> (i > 0 && tseq[i - 1] == child_tok()),
                sel_toks(parts@, combs@) == tseq.take(
                    i - (if pending_child { 1int } else { 0int }),
                ),
        {
            let tk = &toks[i];
            proof {
                assert(tseq[i as int] == tk@);
            }
            if str_eq(tk.as_str(), ">") {
                if pending_child || parts.len() == 0 {
                    proof {
                        if pending_child {
                            assert(tseq[i - 1] == child_tok() && tseq[i as int] == child_tok());
                        } else {
                            assert(tseq[0] == child_tok());
                        }
                        assert(!sel_ok(tseq));
                    }
                    return Result::Err(SelectorError::StrayCombinator);
                }
                pending_child = true;
            } else {
                let part: Part;
                if str_eq(tk.as_str(), ":scope") {
                    part = Part::Scope;
                    proof {
                        assert(part_repr(part) =~= tk@);
                    }
                } else if str_eq(tk.as_str(), "*") {
                    part = Part::Universal;
                    proof {
                        assert(part_repr(part) =~= tk@);
                    }
                } else if valid_name_exec(tk) {
                    part = Part::Name(tk.clone());
                    proof {
                        assert(part_repr(part) =~= tk@);
                    }
                } else {
                    proof {
                        assert(tseq[i as int] != child_tok());
                        assert(!compound_ok(tseq[i as int]));
                        assert(!sel_ok(tseq));
                    }
                    return Result::Err(SelectorError::InvalidToken);
                }
                proof {
                    assert(part_repr(part) == tseq[i as int]);
                }
                let ghost parts_entry = parts@;
                let ghost combs_entry = combs@;
                let ghost was_pending = pending_child;
                if parts.len() > 0 {
                    if pending_child {
                        combs.push(Combinator::Child);
                        pending_child = false;
                    } else {
                        combs.push(Combinator::Descendant);
                    }
                }
                parts.push(part);
                proof {
                    if parts_entry.len() == 0 {
                        assert(parts@.len() == 1);
                        assert(parts@[0] == part);
                        assert(combs@.len() == 0);
                        assert(sel_toks(parts@, combs@) == seq![part_repr(part)]);
                        assert(i == 0);
                        assert(tseq.take(1)[0] == tseq[0]);
                        assert(sel_toks(parts@, combs@) =~= tseq.take(i + 1));
                    } else {
                        let c = combs@.last();
                        assert(parts@.drop_last() =~= parts_entry);
                        assert(combs@.drop_last() =~= combs_entry);
                        assert(parts@.last() == part);
                        assert(sel_toks(parts@, combs@) == sel_toks(parts_entry, combs_entry)
                            + comb_repr(c) + seq![part_repr(part)]);
                        if was_pending {
                            assert(c == Combinator::Child);
                            assert(tseq[i - 1] == child_tok());
                            assert(sel_toks(parts_entry, combs_entry) == tseq.take(i - 1));
                            assert(sel_toks(parts@, combs@) =~= tseq.take(i + 1));
                        } else {
                            assert(c == Combinator::Descendant);
                            assert(sel_toks(parts_entry, combs_entry) == tseq.take(i as int));
                            assert(sel_toks(parts@, combs@) =~= tseq.take(i + 1));
                        }
                    }
                }
            }
        }
        if pending_child {
            proof {
                assert(tseq[n - 1] == child_tok());
                assert(!sel_ok(tseq));
            }
            return Result::Err(SelectorError::StrayCombinator);
        }
        proof {
            assert(tseq.take(n as int) =~= tseq);
        }
        Result::Ok(Selector { parts, combs })
    }
}

/// Whether the compound `p` holds of the element at `n`, with `scope` as the
/// scope root.
pub open spec fn part_matches(t: Tree, p: Part, n: int, scope: Option<usize>) -> bool {
    match t.val(n) {
        Node::Element(ed) => match p {
            Part::Universal => true,
            Part::Scope => scope == Option::Some(n as usize),
            Part::Name(nm) => ed.name@ == nm@,
        },
        _ => false,
    }
}

/// Whether the element at `n` matches the selector prefix ending at compound
/// `k`: the compound holds of `n` and, through the combinator before it, the
/// earlier compounds hold of a parent or ancestor.
pub open spec fn matches_from(t: Tree, sel: Selector, k: int, n: int, scope: Option<usize>) -> bool
    decreases k,
    when sel.wf() && 0 <= k < sel.parts@.len() && t.wf() && 0 <= n < t.len()
    via Self_matches_from_decreases
{
    &&& part_matches(t, sel.parts@[k], n, scope)
    &&& (k == 0 || match sel.combs@[k - 1] {
        Combinator::Child => match t.parent_of(n) {
            Option::Some(p) => matches_from(t, sel, k - 1, p as int, scope),
            Option::None => false,
        },
        Combinator::Descendant => exists|a: int|
            0 <= a < t.len() && t.is_ancestor(a, n) && matches_from(t, sel, k - 1, a, scope),
    })
}

#[via_fn]
proof fn Self_matches_from_decreases(t: Tree, sel: Selector, k: int, n: int, scope: Option<usize>) {
    assert(t.wf_at(n));
}

/// Whether the element at `n` matches the whole selector.
pub open spec fn sel_matches(t: Tree, sel: Selector, n: int, scope: Option<usize>) -> bool {
    matches_from(t, sel, sel.parts@.len() - 1, n, scope)
}

/// Checks one compound against the node at `n`.
fn part_matches_exec(t: &Tree, p: &Part, n: usize, scope: Option<usize>) -> (b: bool)
    requires
        t.wf(),
        n < t.len(),
    ensures
        b == part_matches(*t, *p, n as int, scope),
{
    match &t.vals[n] {
        Node::Element(ed) => match p {
            Part::Universal => true,
            Part::Scope => match scope {
                Option::Some(sc) => sc == n,
                Option::None => false,
            },
            Part::Name(nm) => str_eq(ed.name.as_str(), nm.as_str()),
        },
        _ => false,
    }
}

/// Checks the selector prefix ending at compound `k` against the node at `n`.
fn matches_from_exec(t: &Tree, sel: &Selector, k: usize, n: usize, scope: Option<usize>) -> (b:
    bool)
    requires
        t.wf(),
        sel.wf(),
        k < sel.parts@.len(),
        n < t.len(),
    ensures
        b == matches_from(*t, *sel, k as int, n as int, scope),
    decreases k, n,
{
    if !part_matches_exec(t, &sel.parts[k], n, scope) {
        return false;
    }
    if k == 0 {
        return true;
    }
    match sel.combs[k - 1] {
        Combinator::Child => match t.parents[n] {
            Option::Some(p) => {
                proof {
                    assert(t.wf_at(n as int));
                }
                matches_from_exec(t, sel, k - 1, p, scope)
            },
            Option::None => false,
        },
        Combinator::Descendant => anc_matches_exec(t, sel, k - 1, n, scope),
    }
}

/// Checks whether some strict ancestor of `n` matches the selector prefix
/// ending at compound `k`.
fn anc_matches_exec(t: &Tree, sel: &Selector, k: usize, n: usize, scope: Option<usize>) -> (b:
    bool)
    requires
        t.wf(),
        sel.wf(),
        k < sel.parts@.len(),
        n < t.len(),
    ensures
        b == exists|a: int|
            0 <= a < t.len() && t.is_ancestor(a, n as int) && matches_from(
                *t,
                *sel,
                k as int,
                a,
                scope,
            ),
    decreases k, n,
{
    match t.parents[n] {
        Option::None => {
            proof {
                assert(forall|a: int| !t.is_ancestor(a, n as int));
            }
            false
        },
        Option::Some(p) => {
            proof {
                assert(t.wf_at(n as int));
                assert(t.is_ancestor(p as int, n as int));
            }
            if matches_from_exec(t, sel, k, p, scope) {
                true
            } else {
                let r = anc_matches_exec(t, sel, k, p, scope);
                proof {
                    assert(forall|a: int|
                        t.is_ancestor(a, n as int) <==> a == p as int || t.is_ancestor(
                            a,
                            p as int,
                        ));
                }
                r
            }
        },
    }
}

/// The handles among the first `k` of `order` whose nodes match the
/// selector, in order.
pub open spec fn matching_upto(
    t: Tree,
    sel: Selector,
    order: Seq<usize>,
    scope: Option<usize>,
    k: int,
) -> Seq<usize>
    decreases k,
{
    if k <= 0 {
        Seq::empty()
    } else {
        matching_upto(t, sel, order, scope, k - 1) + (if sel_matches(
            t,
            sel,
            order[k - 1] as int,
            scope,
        ) {
            seq![order[k - 1]]
        } else {
            Seq::<usize>::empty()
        })
    }
}

/// Whatever a filtered selection yields was among the candidates, and it
/// matched.
pub proof fn lemma_matching_upto_sub(
    t: Tree,
    sel: Selector,
    order: Seq<usize>,
    scope: Option<usize>,
    k: int,
)
    requires
        0 <= k <= order.len(),
    ensures
        forall|j: int|
            0 <= j < matching_upto(t, sel, order, scope, k).len() ==> order.contains(
                #[trigger] matching_upto(t, sel, order, scope, k)[j],
            ) && sel_matches(t, sel, matching_upto(t, sel, order, scope, k)[j] as int, scope),
    decreases k,
{
    if k > 0 {
        lemma_matching_upto_sub(t, sel, order, scope, k - 1);
        let pre = matching_upto(t, sel, order, scope, k - 1);
        let cur = matching_upto(t, sel, order, scope, k);
        assert forall|j: int|
            0 <= j < cur.len() implies order.contains(#[trigger] cur[j]) && sel_matches(
            t,
            sel,
            cur[j] as int,
            scope,
        ) by {
            if j < pre.len() {
                assert(cur[j] == pre[j]);
            } else {
                assert(cur[j] == order[k - 1]);
            }
        }
    }
}

/// Checks the whole selector against the node at `n`.
pub fn matches_node(t: &Tree, sel: &Selector, n: usize, scope: Option<usize>) -> (b: bool)
    requires
        t.wf(),
        sel.wf(),
        n < t.len(),
    ensures
        b == sel_matches(*t, *sel, n as int, scope),
{
    matches_from_exec(t, sel, sel.parts.len() - 1, n, scope)
}

} // verus!
