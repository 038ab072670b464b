//! Re-serialization of a subtree to markup, and the final output-encoding
//! normalization step.

use vstd::prelude::*;
use crate::node::{Attribute, Node};
use crate::strutil::{chars_vec, str_eq};
use crate::tree::Tree;

verus! {

/// How one character of body text is written out.
pub open spec fn text_escaped(c: char) -> Seq<char> {
    if c == '&' {
        seq!['&', 'a', 'm', 'p', ';']
    } else if c == '<' {
        seq!['&', 'l', 't', ';']
    } else if c == '>' {
        seq!['&', 'g', 't', ';']
    } else {
        seq![c]
    }
}

/// How one character of an attribute value is written out.
pub open spec fn attr_escaped(c: char) -> Seq<char> {
    if c == '&' {
        seq!['&', 'a', 'm', 'p', ';']
    } else if c == '"' {
        seq!['&', 'q', 'u', 'o', 't', ';']
    } else {
        seq![c]
    }
}

/// Body text with every character escaped as needed.
pub open spec fn escape_text(s: Seq<char>) -> Seq<char>
    decreases s.len(),
{
    if s.len() == 0 {
        Seq::empty()
    } else {
        escape_text(s.drop_last()) + text_escaped(s.last())
    }
}

/// An attribute value with every character escaped as needed.
pub open spec fn escape_attr(s: Seq<char>) -> Seq<char>
    decreases s.len(),
{
    if s.len() == 0 {
        Seq::empty()
    } else {
        escape_attr(s.drop_last()) + attr_escaped(s.last())
    }
}

/// Elements written without an end tag, and whose children are not walked.
pub open spec fn is_void(name: Seq<char>) -> bool {
    ||| name == "area"@
    ||| name == "base"@
    ||| name == "basefont"@
    ||| name == "bgsound"@
    ||| name == "br"@
    ||| name == "col"@
    ||| name == "embed"@
    ||| name == "frame"@
    ||| name == "hr"@
    ||| name == "img"@
    ||| name == "input"@
    ||| name == "keygen"@
    ||| name == "link"@
    ||| name == "meta"@
    ||| name == "param"@
    ||| name == "source"@
    ||| name == "track"@
    ||| name == "wbr"@
}

/// Elements whose text children are written out unescaped.
pub open spec fn is_raw(name: Seq<char>) -> bool {
    name == "script"@ || name == "style"@
}

/// The ` name="value"` runs of the first `k` attributes.
pub open spec fn ser_attrs(attrs: Seq<Attribute>) -> Seq<char>
    decreases attrs.len(),
{
    if attrs.len() == 0 {
        Seq::empty()
    } else {
        ser_attrs(attrs.drop_last()) + seq![' '] + attrs.last().name@ + seq!['=', '"']
            + escape_attr(attrs.last().value@) + seq!['"']
    }
}

impl Tree {
    /// The markup of the node at `n`, tags included.  A document or fragment
    /// root writes only its children; text is escaped unless its parent is a
    /// raw-text element; a void element has no end tag.
    pub open spec fn ser_node(self, n: int) -> Seq<char>
        decreases self.len() - n, self.kids(n).len() + 1,
        when self.wf() && 0 <= n < self.len()
        via Self::ser_node_decreases
    {
        match self.val(n) {
            Node::Document => self.ser_kids(n, self.kids(n).len() as int),
            Node::Fragment => self.ser_kids(n, self.kids(n).len() as int),
            Node::Doctype { name, public_id, system_id } => "<!DOCTYPE "@ + name@ + seq!['>'],
            Node::Comment { text } => "<!--"@ + text@ + "-->"@,
            Node::Text { text } => if self.text_parent_raw(n) {
                text@
            } else {
                escape_text(text@)
            },
            Node::ProcessingInstruction { target, data } => "<?"@ + target@ + seq![' '] + data@
                + seq!['>'],
            Node::Element(ed) => seq!['<'] + ed.name@ + ser_attrs(ed.attrs@) + seq!['>'] + (
            if is_void(ed.name@) {
                Seq::<char>::empty()
            } else {
                self.ser_kids(n, self.kids(n).len() as int) + "</"@ + ed.name@ + seq!['>']
            }),
        }
    }

    /// The markup of the first `k` children of `n`, concatenated.
    pub open spec fn ser_kids(self, n: int, k: int) -> Seq<char>
        decreases self.len() - n, k,
        when self.wf() && 0 <= n < self.len() && 0 <= k <= self.kids(n).len()
        via Self::ser_kids_decreases
    {
        if k <= 0 {
            Seq::empty()
        } else {
            self.ser_kids(n, k - 1) + self.ser_node(self.kids(n)[k - 1] as int)
        }
    }

    #[via_fn]
    proof fn ser_node_decreases(self, n: int) {
        assert(self.wf_at(n));
    }

    #[via_fn]
    proof fn ser_kids_decreases(self, n: int, k: int) {
        assert(self.wf_at(n));
    }

    /// Whether the parent of node `n` is a raw-text element.
    pub open spec fn text_parent_raw(self, n: int) -> bool {
        match self.parent_of(n) {
            Option::Some(p) => match self.val(p as int) {
                Node::Element(ed) => is_raw(ed.name@),
                _ => false,
            },
            Option::None => false,
        }
    }
}

/// Appends the characters of `s` to `out`.
fn push_str_chars(out: &mut Vec<char>, s: &str)
    ensures
        final(out)@ == old(out)@ + s@,
{
    let mut cs = chars_vec(s);
    out.append(&mut cs);
}

/// Appends the escaped form of body text to `out`.
fn push_escaped_text(out: &mut Vec<char>, s: &str)
    ensures
        final(out)@ == old(out)@ + escape_text(s@),
{
    let cs = chars_vec(s);
    let n = cs.len();
    for i in 0..n
        invariant
            n == s@.len(),
            cs@ == s@,
            out@ == old(out)@ + escape_text(s@.take(i as int)),
    {
        let c = cs[i];
        proof {
            assert(s@.take(i + 1).drop_last() =~= s@.take(i as int));
            assert(s@.take(i + 1).last() == s@[i as int]);
        }
        if c == '&' {
            push_str_chars(out, "&amp;");
            proof {
                reveal_strlit("&amp;");
                assert("&amp;"@ =~= text_escaped(c));
            }
        } else if c == '<' {
            push_str_chars(out, "&lt;");
            proof {
                reveal_strlit("&lt;");
                assert("&lt;"@ =~= text_escaped(c));
            }
        } else if c == '>' {
            push_str_chars(out, "&gt;");
            proof {
                reveal_strlit("&gt;");
                assert("&gt;"@ =~= text_escaped(c));
            }
        } else {
            out.push(c);
            proof {
                assert(out@ =~= old(out)@ + escape_text(s@.take(i as int)) + text_escaped(c));
            }
        }
        proof {
            assert(out@ =~= old(out)@ + escape_text(s@.take(i + 1)));
        }
    }
    proof {
        assert(s@.take(n as int) =~= s@);
    }
}

/// Appends the escaped form of an attribute value to `out`.
fn push_escaped_attr(out: &mut Vec<char>, s: &str)
    ensures
        final(out)@ == old(out)@ + escape_attr(s@),
{
    let cs = chars_vec(s);
    let n = cs.len();
    for i in 0..n
        invariant
            n == s@.len(),
            cs@ == s@,
            out@ == old(out)@ + escape_attr(s@.take(i as int)),
    {
        let c = cs[i];
        proof {
            assert(s@.take(i + 1).drop_last() =~= s@.take(i as int));
            assert(s@.take(i + 1).last() == s@[i as int]);
        }
        if c == '&' {
            push_str_chars(out, "&amp;");
            proof {
                reveal_strlit("&amp;");
                assert("&amp;"@ =~= attr_escaped(c));
            }
        } else if c == '"' {
            push_str_chars(out, "&quot;");
            proof {
                reveal_strlit("&quot;");
                assert("&quot;"@ =~= attr_escaped(c));
            }
        } else {
            out.push(c);
            proof {
                assert(out@ =~= old(out)@ + escape_attr(s@.take(i as int)) + attr_escaped(c));
            }
        }
        proof {
            assert(out@ =~= old(out)@ + escape_attr(s@.take(i + 1)));
        }
    }
    proof {
        assert(s@.take(n as int) =~= s@);
    }
}

/// Appends the ` name="value"` runs of all attributes to `out`.
fn push_attrs(out: &mut Vec<char>, attrs: &Vec<Attribute>)
    ensures
        final(out)@ == old(out)@ + ser_attrs(attrs@),
{
    let n = attrs.len();
    for i in 0..n
        invariant
            n == attrs@.len(),
            out@ == old(out)@ + ser_attrs(attrs@.take(i as int)),
    {
        proof {
            assert(attrs@.take(i + 1).drop_last() =~= attrs@.take(i as int));
            assert(attrs@.take(i + 1).last() == attrs@[i as int]);
        }
        out.push(' ');
        push_str_chars(out, attrs[i].name.as_str());
        out.push('=');
        out.push('"');
        push_escaped_attr(out, attrs[i].value.as_str());
        out.push('"');
        proof {
            assert(out@ =~= old(out)@ + ser_attrs(attrs@.take(i + 1)));
        }
    }
    proof {
        assert(attrs@.take(n as int) =~= attrs@);
    }
}

/// Checks whether a tag name belongs to a void element.
fn is_void_exec(name: &str) -> (r: bool)
    ensures
        r == is_void(name@),
{
    str_eq(name, "area") || str_eq(name, "base") || str_eq(name, "basefont") || str_eq(
        name,
        "bgsound",
    ) || str_eq(name, "br") || str_eq(name, "col") || str_eq(name, "embed") || str_eq(
        name,
        "frame",
    ) || str_eq(name, "hr") || str_eq(name, "img") || str_eq(name, "input") || str_eq(
        name,
        "keygen",
    ) || str_eq(name, "link") || str_eq(name, "meta") || str_eq(name, "param") || str_eq(
        name,
        "source",
    ) || str_eq(name, "track") || str_eq(name, "wbr")
}

/// Checks whether a tag name belongs to a raw-text element.
pub fn is_raw_exec(name: &str) -> (r: bool)
    ensures
        r == is_raw(name@),
{
    str_eq(name, "script") || str_eq(name, "style")
}

/// Appends the markup of the node at `n` (tags included) to `out`.
pub fn ser_node_exec(t: &Tree, n: usize, out: &mut Vec<char>)
    requires
        t.wf(),
        n < t.len(),
    ensures
        final(out)@ == old(out)@ + t.ser_node(n as int),
    decreases t.len() - n,
{
    match &t.vals[n] {
        Node::Document => {
            ser_kids_exec(t, n, out);
        },
        Node::Fragment => {
            ser_kids_exec(t, n, out);
        },
        Node::Doctype { name, public_id, system_id } => {
            push_str_chars(out, "<!DOCTYPE ");
            push_str_chars(out, name.as_str());
            out.push('>');
            proof {
                assert(out@ =~= old(out)@ + t.ser_node(n as int));
            }
        },
        Node::Comment { text } => {
            push_str_chars(out, "<!--");
            push_str_chars(out, text.as_str());
            push_str_chars(out, "-->");
            proof {
                assert(out@ =~= old(out)@ + t.ser_node(n as int));
            }
        },
        Node::Text { text } => {
            proof {
                assert(t.wf_at(n as int));
            }
            let raw = match &t.parents[n] {
                Option::Some(p) => match &t.vals[*p] {
                    Node::Element(ed) => is_raw_exec(ed.name.as_str()),
                    _ => false,
                },
                Option::None => false,
            };
            proof {
                assert(t.wf_at(n as int));
                assert(raw == t.text_parent_raw(n as int));
            }
            if raw {
                push_str_chars(out, text.as_str());
            } else {
                push_escaped_text(out, text.as_str());
            }
        },
        Node::ProcessingInstruction { target, data } => {
            push_str_chars(out, "<?");
            push_str_chars(out, target.as_str());
            out.push(' ');
            push_str_chars(out, data.as_str());
            out.push('>');
            proof {
                assert(out@ =~= old(out)@ + t.ser_node(n as int));
            }
        },
        Node::Element(ed) => {
            out.push('<');
            push_str_chars(out, ed.name.as_str());
            push_attrs(out, &ed.attrs);
            out.push('>');
            if !is_void_exec(ed.name.as_str()) {
                ser_kids_exec(t, n, out);
                push_str_chars(out, "</");
                push_str_chars(out, ed.name.as_str());
                out.push('>');
            }
            proof {
                assert(out@ =~= old(out)@ + t.ser_node(n as int));
            }
        },
    }
}

/// Appends the markup of all children of `n`, in document order, to `out`.
pub fn ser_kids_exec(t: &Tree, n: usize, out: &mut Vec<char>)
    requires
        t.wf(),
        n < t.len(),
    ensures
        final(out)@ == old(out)@ + t.ser_kids(n as int, t.kids(n as int).len() as int),
    decreases t.len() - n, t.kids(n as int).len() + 1,
{
    let m = t.childs[n].len();
    for k in 0..m
        invariant
            t.wf(),
            n < t.len(),
            m == t.kids(n as int).len(),
            out@ == old(out)@ + t.ser_kids(n as int, k as int),
    {
        let c = t.childs[n][k];
        proof {
            assert(t.wf_at(n as int));
            assert(n < t.kids(n as int)[k as int] < t.len());
        }
        ser_node_exec(t, c, out);
        proof {
            assert(out@ =~= old(out)@ + t.ser_kids(n as int, k + 1));
        }
    }
}

/// The string an `auto_encoder` pass leaves of a serialized character run.
pub uninterp spec fn auto_decoded(s: Seq<char>) -> Seq<char>;

/// Relies on `auto_encoder::auto_encode_bytes`: it re-decodes the serialized
/// bytes with whatever encoding it detects, returns the empty string for
/// empty input, and its result depends on the input bytes alone.
#[verifier::external_body]
pub fn encode_normalize(chars: &Vec<char>) -> (r: String)
    ensures
        r@ == auto_decoded(chars@),
        chars@.len() == 0 ==> r@.len() == 0,
{
    let s: String = chars.iter().collect();
    auto_encoder::auto_encode_bytes(s.as_bytes())
}

} // verus!
