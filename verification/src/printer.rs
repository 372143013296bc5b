//! The canonical printer: renders a value tree to text under a chosen
//! spacing policy, deterministically. Object entries are emitted in the
//! entry list's own (sorted) order.

use vstd::prelude::*;

use crate::value::elems_view;
use crate::value::entries_view;
use crate::value::JVal;
use crate::value::Json;

verus! {

broadcast use vstd::std_specs::vec::group_vec_axioms;

/// The spacing policies: no inserted whitespace at all; one tab per nesting
/// level; or a fixed number of spaces per nesting level.
#[derive(Debug, PartialEq, Eq, Structural, Clone, Copy)]
pub enum Spacing {
    Compact,
    TabIndent,
    SpaceIndent(usize),
}

/// The text of the `null` keyword.
pub open spec fn kw_null() -> Seq<char> {
    seq!['n', 'u', 'l', 'l']
}

/// The text of the `true` keyword.
pub open spec fn kw_true() -> Seq<char> {
    seq!['t', 'r', 'u', 'e']
}

/// The text of the `false` keyword.
pub open spec fn kw_false() -> Seq<char> {
    seq!['f', 'a', 'l', 's', 'e']
}

/// Compact rendering: keywords, the number's literal, the double-quoted
/// string (its characters copied verbatim), and brackets with comma-joined
/// children, with no whitespace anywhere.
pub open spec fn render_compact(v: JVal) -> Seq<char>
    decreases v,
{
    match v {
        JVal::Null => kw_null(),
        JVal::Bool(b) => if b {
            kw_true()
        } else {
            kw_false()
        },
        JVal::Num(t) => t,
        JVal::Str(t) => seq!['"'] + t + seq!['"'],
        JVal::Arr(es) => seq!['['] + compact_elems(es) + seq![']'],
        JVal::Obj(en) => seq!['{'] + compact_entries(en) + seq!['}'],
    }
}

/// The comma-joined compact renderings of the elements.
pub open spec fn compact_elems(es: Seq<JVal>) -> Seq<char>
    decreases es,
{
    if es.len() == 0 {
        Seq::empty()
    } else if es.len() == 1 {
        render_compact(es[0])
    } else {
        render_compact(es[0]) + seq![','] + compact_elems(es.drop_first())
    }
}

/// The comma-joined compact renderings of the entries, each as
/// `"key":value`.
pub open spec fn compact_entries(en: Seq<(Seq<char>, JVal)>) -> Seq<char>
    decreases en,
{
    if en.len() == 0 {
        Seq::empty()
    } else {
        let head = seq!['"'] + en[0].0 + seq!['"', ':'] + render_compact(en[0].1);
        if en.len() == 1 {
            head
        } else {
            head + seq![','] + compact_entries(en.drop_first())
        }
    }
}

/// Indented rendering with one `unit` of indentation per nesting level,
/// `pad` being the current level's indentation. An empty array or object
/// renders as `[]` or `{}` whatever the policy; an array of exactly one
/// element renders compactly on one line as `[ element ]`; every other array
/// or object puts each child on its own line, one `unit` deeper, a comma
/// after each child but the last, and the closing bracket at the current
/// level. Everything else renders compactly.
pub open spec fn render_pretty(v: JVal, unit: Seq<char>, pad: Seq<char>) -> Seq<char>
    decreases v,
{
    match v {
        JVal::Arr(es) => if es.len() == 0 {
            seq!['[', ']']
        } else if es.len() == 1 {
            seq!['[', ' '] + render_compact(es[0]) + seq![' ', ']']
        } else {
            seq!['[', '\n'] + pretty_elems(es, unit, pad + unit) + pad + seq![']']
        },
        JVal::Obj(en) => if en.len() == 0 {
            seq!['{', '}']
        } else {
            seq!['{', '\n'] + pretty_entries(en, unit, pad + unit) + pad + seq!['}']
        },
        _ => render_compact(v),
    }
}

/// The elements, one per line at indentation `ind`, a comma after each but
/// the last.
pub open spec fn pretty_elems(es: Seq<JVal>, unit: Seq<char>, ind: Seq<char>) -> Seq<char>
    decreases es,
{
    if es.len() == 0 {
        Seq::empty()
    } else {
        let sep: Seq<char> = if es.len() > 1 {
            seq![',']
        } else {
            Seq::empty()
        };
        ind + render_pretty(es[0], unit, ind) + sep + seq!['\n'] + pretty_elems(
            es.drop_first(),
            unit,
            ind,
        )
    }
}

/// The entries, one per line at indentation `ind` as `"key": value`, a comma
/// after each but the last.
pub open spec fn pretty_entries(
    en: Seq<(Seq<char>, JVal)>,
    unit: Seq<char>,
    ind: Seq<char>,
) -> Seq<char>
    decreases en,
{
    if en.len() == 0 {
        Seq::empty()
    } else {
        let sep: Seq<char> = if en.len() > 1 {
            seq![',']
        } else {
            Seq::empty()
        };
        ind + seq!['"'] + en[0].0 + seq!['"', ':', ' '] + render_pretty(en[0].1, unit, ind) + sep
            + seq!['\n'] + pretty_entries(en.drop_first(), unit, ind)
    }
}

/// What printing under a policy renders: compact text, or indented text with
/// a tab or the chosen number of spaces per level.
pub open spec fn render(v: JVal, sp: Spacing) -> Seq<char> {
    match sp {
        Spacing::Compact => render_compact(v),
        Spacing::TabIndent => render_pretty(v, seq!['\t'], Seq::empty()),
        Spacing::SpaceIndent(n) => render_pretty(
            v,
            Seq::new(n as nat, |i: int| ' '),
            Seq::empty(),
        ),
    }
}

impl Json {
    /// Renders the tree under the given spacing policy. Printing the same
    /// tree twice yields the same text: the output is a function of the tree
    /// and the policy alone.
    pub fn print(&self, spacing: &Spacing) -> (out: String)
        ensures
            out@ == render(self@, *spacing),
    {
        let mut out = String::new();
        match spacing {
            Spacing::Compact => {
                self.print_compact(&mut out);
            },
            Spacing::TabIndent => {
                self.print_pretty("\t", "", &mut out);
                proof {
                    reveal_strlit("\t");
                    reveal_strlit("");
                    assert("\t"@ =~= seq!['\t']);
                    assert(""@ =~= Seq::<char>::empty());
                }
            },
            Spacing::SpaceIndent(n) => {
                let unit = spaces(*n);
                self.print_pretty(unit.as_str(), "", &mut out);
                proof {
                    reveal_strlit("");
                    assert(""@ =~= Seq::<char>::empty());
                }
            },
        }
        out
    }

    /// Appends the indented rendering of the tree, one `unit` of indentation
    /// per nesting level, `pad` being the current level's indentation.
    #[verifier::loop_isolation(false)]
    #[verifier::rlimit(100)]
    fn print_pretty(&self, unit: &str, pad: &str, out: &mut String)
        ensures
            final(out)@ == old(out)@ + render_pretty(self@, unit@, pad@),
        decreases self,
    {
        match self {
            Json::Array(a) => {
                let ghost es = elems_view(a@);
                let ghost base = out@;
                proof {
                    reveal_strlit("[]");
                    reveal_strlit("[ ");
                    reveal_strlit(" ]");
                    reveal_strlit("[\n");
                    reveal_strlit("]");
                    reveal_strlit(",");
                    reveal_strlit("\n");
                    assert("[]"@ =~= seq!['[', ']']);
                    assert("[ "@ =~= seq!['[', ' ']);
                    assert(" ]"@ =~= seq![' ', ']']);
                    assert("[\n"@ =~= seq!['[', '\n']);
                    assert("]"@ =~= seq![']']);
                    assert(","@ =~= seq![',']);
                    assert("\n"@ =~= seq!['\n']);
                }
                if a.len() == 0 {
                    out.append("[]");
                    return ;
                }
                if a.len() == 1 {
                    out.append("[ ");
                    proof {
                        assert(es[0] == a@[0]@);
                    }
                    a[0].print_compact(out);
                    out.append(" ]");
                    proof {
                        assert(final(out)@ =~= old(out)@ + render_pretty(self@, unit@, pad@));
                    }
                    return ;
                }
                let deeper = String::from_str(pad).concat(unit);
                let ghost ind = pad@ + unit@;
                out.append("[\n");
                let ghost mut done: Seq<char> = Seq::empty();
                proof {
                    assert(es.skip(0) =~= es);
                    assert(pretty_elems(es, unit@, ind) =~= done + pretty_elems(
                        es.skip(0),
                        unit@,
                        ind,
                    ));
                    assert(out@ =~= base + seq!['[', '\n'] + done);
                }
                let mut i: usize = 0;
                while i < a.len()
                    invariant
                        i <= a.len(),
                        out@ == base + seq!['[', '\n'] + done,
                        pretty_elems(es, unit@, ind) == done + pretty_elems(
                            es.skip(i as int),
                            unit@,
                            ind,
                        ),
                    decreases a.len() - i,
                {
                    let ghost rest = es.skip(i as int);
                    proof {
                        assert(rest[0] == es[i as int]);
                        assert(rest.drop_first() =~= es.skip(i as int + 1));
                        assert(es[i as int] == a@[i as int]@);
                    }
                    let ghost out0 = out@;
                    out.append(deeper.as_str());
                    a[i].print_pretty(unit, deeper.as_str(), out);
                    let ghost sep: Seq<char>;
                    if i + 1 < a.len() {
                        out.append(",");
                        proof {
                            sep = seq![','];
                        }
                    } else {
                        proof {
                            sep = Seq::empty();
                        }
                    }
                    out.append("\n");
                    let ghost chunk = ind + render_pretty(es[i as int], unit@, ind) + sep
                        + seq!['\n'];
                    proof {
                        assert(out@ =~= out0 + chunk);
                        assert(pretty_elems(rest, unit@, ind) =~= chunk + pretty_elems(
                            es.skip(i as int + 1),
                            unit@,
                            ind,
                        ));
                        done = done + chunk;
                        assert(out@ =~= base + seq!['[', '\n'] + done);
                        assert(pretty_elems(es, unit@, ind) =~= done + pretty_elems(
                            es.skip(i as int + 1),
                            unit@,
                            ind,
                        ));
                    }
                    i += 1;
                }
                proof {
                    assert(pretty_elems(es.skip(i as int), unit@, ind) =~= Seq::<char>::empty());
                    assert(done + Seq::<char>::empty() =~= done);
                }
                out.append(pad);
                out.append("]");
                proof {
                    assert(final(out)@ =~= old(out)@ + render_pretty(self@, unit@, pad@));
                }
            },
            Json::Object(o) => {
                let ghost en = entries_view(o@);
                let ghost base = out@;
                proof {
                    reveal_strlit("{}");
                    reveal_strlit("{\n");
                    reveal_strlit("}");
                    reveal_strlit(",");
                    reveal_strlit("\n");
                    reveal_strlit("\"");
                    reveal_strlit("\": ");
                    assert("{}"@ =~= seq!['{', '}']);
                    assert("{\n"@ =~= seq!['{', '\n']);
                    assert("}"@ =~= seq!['}']);
                    assert(","@ =~= seq![',']);
                    assert("\n"@ =~= seq!['\n']);
                    assert("\""@ =~= seq!['"']);
                    assert("\": "@ =~= seq!['"', ':', ' ']);
                }
                if o.len() == 0 {
                    out.append("{}");
                    return ;
                }
                let deeper = String::from_str(pad).concat(unit);
                let ghost ind = pad@ + unit@;
                out.append("{\n");
                let ghost mut done: Seq<char> = Seq::empty();
                proof {
                    assert(en.skip(0) =~= en);
                    assert(pretty_entries(en, unit@, ind) =~= done + pretty_entries(
                        en.skip(0),
                        unit@,
                        ind,
                    ));
                    assert(out@ =~= base + seq!['{', '\n'] + done);
                }
                let mut i: usize = 0;
                while i < o.len()
                    invariant
                        i <= o.len(),
                        out@ == base + seq!['{', '\n'] + done,
                        pretty_entries(en, unit@, ind) == done + pretty_entries(
                            en.skip(i as int),
                            unit@,
                            ind,
                        ),
                    decreases o.len() - i,
                {
                    let ghost rest = en.skip(i as int);
                    proof {
                        assert(rest[0] == en[i as int]);
                        assert(rest.drop_first() =~= en.skip(i as int + 1));
                        assert(en[i as int] == (o@[i as int].0@, o@[i as int].1@));
                    }
                    let ghost out0 = out@;
                    out.append(deeper.as_str());
                    out.append("\"");
                    out.append(o[i].0.as_str());
                    out.append("\": ");
                    o[i].1.print_pretty(unit, deeper.as_str(), out);
                    let ghost sep: Seq<char>;
                    if i + 1 < o.len() {
                        out.append(",");
                        proof {
                            sep = seq![','];
                        }
                    } else {
                        proof {
                            sep = Seq::empty();
                        }
                    }
                    out.append("\n");
                    let ghost chunk = ind + seq!['"'] + en[i as int].0 + seq!['"', ':', ' ']
                        + render_pretty(en[i as int].1, unit@, ind) + sep + seq!['\n'];
                    proof {
                        assert(out@ =~= out0 + chunk);
                        assert(pretty_entries(rest, unit@, ind) =~= chunk + pretty_entries(
                            en.skip(i as int + 1),
                            unit@,
                            ind,
                        ));
                        done = done + chunk;
                        assert(out@ =~= base + seq!['{', '\n'] + done);
                        assert(pretty_entries(en, unit@, ind) =~= done + pretty_entries(
                            en.skip(i as int + 1),
                            unit@,
                            ind,
                        ));
                    }
                    i += 1;
                }
                proof {
                    assert(pretty_entries(en.skip(i as int), unit@, ind) =~= Seq::<char>::empty());
                    assert(done + Seq::<char>::empty() =~= done);
                }
                out.append(pad);
                out.append("}");
                proof {
                    assert(final(out)@ =~= old(out)@ + render_pretty(self@, unit@, pad@));
                }
            },
            _ => {
                self.print_compact(out);
            },
        }
    }

    /// Appends the compact rendering of the tree.
    #[verifier::loop_isolation(false)]
    #[verifier::rlimit(60)]
    fn print_compact(&self, out: &mut String)
        ensures
            final(out)@ == old(out)@ + render_compact(self@),
        decreases self,
    {
        match self {
            Json::Null => {
                proof {
                    reveal_strlit("null");
                    assert("null"@ =~= kw_null());
                }
                out.append("null");
            },
            Json::Boolean(b) => {
                if *b {
                    proof {
                        reveal_strlit("true");
                        assert("true"@ =~= kw_true());
                    }
                    out.append("true");
                } else {
                    proof {
                        reveal_strlit("false");
                        assert("false"@ =~= kw_false());
                    }
                    out.append("false");
                }
            },
            Json::Number(t) => {
                out.append(t.as_str());
            },
            Json::String(t) => {
                proof {
                    reveal_strlit("\"");
                    assert("\""@ =~= seq!['"']);
                }
                out.append("\"");
                out.append(t.as_str());
                out.append("\"");
                proof {
                    assert(old(out)@ + seq!['"'] + t@ + seq!['"'] =~= final(out)@);
                }
            },
            Json::Array(a) => {
                let ghost es = elems_view(a@);
                let ghost base = out@;
                proof {
                    reveal_strlit("[");
                    reveal_strlit("]");
                    reveal_strlit(",");
                    assert("["@ =~= seq!['[']);
                    assert("]"@ =~= seq![']']);
                    assert(","@ =~= seq![',']);
                }
                out.append("[");
                let ghost mut done: Seq<char> = Seq::empty();
                proof {
                    assert(es.skip(0) =~= es);
                    assert(compact_elems(es) =~= done + compact_elems(es.skip(0)));
                    assert(out@ =~= base + seq!['['] + done);
                }
                let mut i: usize = 0;
                while i < a.len()
                    invariant
                        i <= a.len(),
                        out@ == base + seq!['['] + done,
                        compact_elems(es) == done + compact_elems(es.skip(i as int)),
                    decreases a.len() - i,
                {
                    let ghost rest = es.skip(i as int);
                    proof {
                        assert(rest[0] == es[i as int]);
                        assert(rest.drop_first() =~= es.skip(i as int + 1));
                        assert(es[i as int] == a@[i as int]@);
                    }
                    let ghost out0 = out@;
                    a[i].print_compact(out);
                    let ghost chunk: Seq<char>;
                    if i + 1 < a.len() {
                        out.append(",");
                        proof {
                            chunk = render_compact(es[i as int]) + seq![','];
                            assert(out@ =~= out0 + chunk);
                            assert(compact_elems(rest) =~= chunk + compact_elems(
                                es.skip(i as int + 1),
                            ));
                        }
                    } else {
                        proof {
                            chunk = render_compact(es[i as int]);
                            assert(rest.len() == 1);
                            assert(compact_elems(rest) == chunk);
                            assert(compact_elems(es.skip(i as int + 1)) =~= Seq::<char>::empty());
                            assert(compact_elems(rest) =~= chunk + compact_elems(
                                es.skip(i as int + 1),
                            ));
                        }
                    }
                    proof {
                        done = done + chunk;
                        assert(out@ =~= base + seq!['['] + done);
                        assert(compact_elems(es) =~= done + compact_elems(es.skip(i as int + 1)));
                    }
                    i += 1;
                }
                proof {
                    assert(compact_elems(es.skip(i as int)) =~= Seq::<char>::empty());
                    assert(done + Seq::<char>::empty() =~= done);
                }
                out.append("]");
                proof {
                    assert(final(out)@ =~= old(out)@ + render_compact(self@));
                }
            },
            Json::Object(o) => {
                let ghost en = entries_view(o@);
                let ghost base = out@;
                proof {
                    reveal_strlit("{");
                    reveal_strlit("}");
                    reveal_strlit(",");
                    reveal_strlit("\"");
                    reveal_strlit("\":");
                    assert("{"@ =~= seq!['{']);
                    assert("}"@ =~= seq!['}']);
                    assert(","@ =~= seq![',']);
                    assert("\""@ =~= seq!['"']);
                    assert("\":"@ =~= seq!['"', ':']);
                }
                out.append("{");
                let ghost mut done: Seq<char> = Seq::empty();
                proof {
                    assert(en.skip(0) =~= en);
                    assert(compact_entries(en) =~= done + compact_entries(en.skip(0)));
                    assert(out@ =~= base + seq!['{'] + done);
                }
                let mut i: usize = 0;
                while i < o.len()
                    invariant
                        i <= o.len(),
                        out@ == base + seq!['{'] + done,
                        compact_entries(en) == done + compact_entries(en.skip(i as int)),
                    decreases o.len() - i,
                {
                    let ghost rest = en.skip(i as int);
                    proof {
                        assert(rest[0] == en[i as int]);
                        assert(rest.drop_first() =~= en.skip(i as int + 1));
                        assert(en[i as int] == (o@[i as int].0@, o@[i as int].1@));
                    }
                    let ghost out0 = out@;
                    out.append("\"");
                    out.append(o[i].0.as_str());
                    out.append("\":");
                    o[i].1.print_compact(out);
                    let ghost head = seq!['"'] + en[i as int].0 + seq!['"', ':'] + render_compact(
                        en[i as int].1,
                    );
                    let ghost chunk: Seq<char>;
                    if i + 1 < o.len() {
                        out.append(",");
                        proof {
                            chunk = head + seq![','];
                            assert(out@ =~= out0 + chunk);
                            assert(compact_entries(rest) =~= chunk + compact_entries(
                                en.skip(i as int + 1),
                            ));
                        }
                    } else {
                        proof {
                            chunk = head;
                            assert(out@ =~= out0 + chunk);
                            assert(rest.len() == 1);
                            assert(compact_entries(rest) == chunk);
                            assert(compact_entries(en.skip(i as int + 1)) =~= Seq::<char>::empty());
                            assert(compact_entries(rest) =~= chunk + compact_entries(
                                en.skip(i as int + 1),
                            ));
                        }
                    }
                    proof {
                        done = done + chunk;
                        assert(out@ =~= base + seq!['{'] + done);
                        assert(compact_entries(en) =~= done + compact_entries(en.skip(i as int + 1)));
                    }
                    i += 1;
                }
                proof {
                    assert(compact_entries(en.skip(i as int)) =~= Seq::<char>::empty());
                    assert(done + Seq::<char>::empty() =~= done);
                }
                out.append("}");
                proof {
                    assert(final(out)@ =~= old(out)@ + render_compact(self@));
                }
            },
        }
    }
}

/// A run of `n` spaces.
fn spaces(n: usize) -> (out: String)
    ensures
        out@ == Seq::new(n as nat, |i: int| ' '),
{
    let mut out = String::new();
    proof {
        reveal_strlit(" ");
        assert(" "@ =~= seq![' ']);
    }
    let mut i: usize = 0;
    while i < n
        invariant
            i <= n,
            " "@ == seq![' '],
            out@ == Seq::new(i as nat, |k: int| ' '),
        decreases n - i,
    {
        out.append(" ");
        proof {
            assert(out@ =~= Seq::new(i as nat + 1, |k: int| ' '));
        }
        i += 1;
    }
    out
}

} // verus!
