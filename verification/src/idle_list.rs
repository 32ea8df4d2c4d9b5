//! The idle classifier: a rule table deciding whether a (function, program)
//! pair counts as idle or background activity.
//!
//! The table is an explicitly owned, immutable value built once from the
//! lines of a rules source and passed by reference wherever it is consulted;
//! there is no hidden global state.

use vstd::prelude::*;

use crate::text::{
    is_substring_of, is_suffix_of, split_tokens, split_ws, str_compare, str_contains,
    str_ends_with, StrOrder,
};

verus! {

/// How a rule's program name is matched against a program name.
#[derive(Clone, Copy, PartialEq, Eq, Structural, Debug)]
pub enum CheckMode {
    /// Full string equality.
    Exact,
    /// The program name ends with the rule name; a plain suffix test with no
    /// boundary check.
    EndWith,
    /// The rule name occurs anywhere in the program name.
    Contain,
}

/// One idle rule: a program name and how to match it.
pub struct Program {
    /// The rule's program name.
    pub name: String,
    /// How the name is matched.
    pub mode: CheckMode,
}

/// All rules of one function, in source order.
pub struct IdleEntry {
    /// The function the rules apply to.
    pub func: String,
    /// Its rules, in the order the source gave them.
    pub programs: Vec<Program>,
}

/// The idle rule table, read-only after construction.
pub struct IdleList {
    /// One entry per function; functions are unique.
    pub entries: Vec<IdleEntry>,
}

/// Whether a program name matches a rule name under the given mode.
pub open spec fn mode_matches(program: Seq<char>, name: Seq<char>, mode: CheckMode) -> bool {
    match mode {
        CheckMode::Exact => program == name,
        CheckMode::EndWith => is_suffix_of(name, program),
        CheckMode::Contain => is_substring_of(name, program),
    }
}

/// Whether a program name matches a rule.
pub open spec fn rule_matches(program: Seq<char>, rule: Program) -> bool {
    mode_matches(program, rule.name@, rule.mode)
}

/// Functions are unique across the entries.
pub open spec fn funcs_unique(es: Seq<IdleEntry>) -> bool {
    forall|i: int, j: int|
        0 <= i < j < es.len() ==> (#[trigger] es[i].func@) != (#[trigger] es[j].func@)
}

/// Some entry holds function `f`.
pub open spec fn has_func(es: Seq<IdleEntry>, f: Seq<char>) -> bool {
    exists|i: int| 0 <= i < es.len() && (#[trigger] es[i].func@) == f
}

/// The index of the entry holding function `f`.
pub open spec fn func_index(es: Seq<IdleEntry>, f: Seq<char>) -> int {
    choose|i: int| 0 <= i < es.len() && (#[trigger] es[i].func@) == f
}

/// The rules stored for function `f`; empty when the function is absent.
pub open spec fn rules_of(es: Seq<IdleEntry>, f: Seq<char>) -> Seq<Program> {
    if has_func(es, f) {
        es[func_index(es, f)].programs@
    } else {
        Seq::empty()
    }
}

/// The rule a line of the rules source declares: its first three
/// whitespace-separated fields are function, program name and mode letter;
/// any further fields are ignored, and a line with fewer fields or an
/// unknown mode letter declares nothing.
pub open spec fn rule_of_line(line: Seq<char>) -> Option<(Seq<char>, Seq<char>, CheckMode)> {
    let ts = split_ws(line);
    if ts.len() >= 3 {
        if ts[2] == "X"@ {
            Some((ts[0], ts[1], CheckMode::Exact))
        } else if ts[2] == "E"@ {
            Some((ts[0], ts[1], CheckMode::EndWith))
        } else if ts[2] == "C"@ {
            Some((ts[0], ts[1], CheckMode::Contain))
        } else {
            None
        }
    } else {
        None
    }
}

/// Whether a line declares a rule for function `f` that matches program `p`.
pub open spec fn line_matches(line: Seq<char>, f: Seq<char>, p: Seq<char>) -> bool {
    match rule_of_line(line) {
        Some((func, name, mode)) => func == f && mode_matches(p, name, mode),
        None => false,
    }
}

/// In a duplicate-free entry sequence the entry of function `es[i].func` is
/// `es[i]` itself.
proof fn lemma_func_index_of(es: Seq<IdleEntry>, i: int)
    requires
        funcs_unique(es),
        0 <= i < es.len(),
    ensures
        has_func(es, es[i].func@),
        func_index(es, es[i].func@) == i,
{
    let f = es[i].func@;
    assert(has_func(es, f));
}

/// Tables with the same rules for `f` agree on `f`'s idleness.
proof fn lemma_is_idle_frame(a: IdleList, b: IdleList, f: Seq<char>, p: Seq<char>)
    requires
        rules_of(a.entries@, f) == rules_of(b.entries@, f),
    ensures
        a.is_idle(f, p) == b.is_idle(f, p),
{
    if a.is_idle(f, p) {
        let x = choose|x: int|
            0 <= x < rules_of(a.entries@, f).len() && rule_matches(
                p,
                #[trigger] rules_of(a.entries@, f)[x],
            );
        assert(rule_matches(p, rules_of(b.entries@, f)[x]));
    }
    if b.is_idle(f, p) {
        let x = choose|x: int|
            0 <= x < rules_of(b.entries@, f).len() && rule_matches(
                p,
                #[trigger] rules_of(b.entries@, f)[x],
            );
        assert(rule_matches(p, rules_of(a.entries@, f)[x]));
    }
}

/// Appending one rule for `f` makes `(f, p)` idle exactly when it was idle
/// before or the new rule matches.
proof fn lemma_is_idle_push(a: IdleList, b: IdleList, f: Seq<char>, p: Seq<char>, prog: Program)
    requires
        rules_of(b.entries@, f) == rules_of(a.entries@, f).push(prog),
    ensures
        b.is_idle(f, p) == (a.is_idle(f, p) || rule_matches(p, prog)),
{
    let r0 = rules_of(a.entries@, f);
    let r2 = rules_of(b.entries@, f);
    assert(forall|x: int| 0 <= x < r0.len() ==> r2[x] == #[trigger] r0[x]);
    assert(r2[r0.len() as int] == prog);
    if b.is_idle(f, p) {
        let x = choose|x: int| 0 <= x < r2.len() && rule_matches(p, #[trigger] r2[x]);
        if x < r0.len() {
            assert(rule_matches(p, r0[x]));
        }
    }
    if a.is_idle(f, p) {
        let x = choose|x: int| 0 <= x < r0.len() && rule_matches(p, #[trigger] r0[x]);
        assert(rule_matches(p, r2[x]));
    }
    if rule_matches(p, prog) {
        assert(rule_matches(p, r2[r0.len() as int]));
    }
}

impl IdleList {
    /// The table's invariant: one entry per function.
    pub open spec fn wf(self) -> bool {
        funcs_unique(self.entries@)
    }

    /// Whether function `f` running program `p` counts as idle: some rule of
    /// `f` matches `p`.
    pub open spec fn is_idle(self, f: Seq<char>, p: Seq<char>) -> bool {
        exists|k: int|
            0 <= k < rules_of(self.entries@, f).len() && rule_matches(
                p,
                #[trigger] rules_of(self.entries@, f)[k],
            )
    }

    /// The empty table: nothing is idle.
    pub fn empty() -> (list: IdleList)
        ensures
            list.wf(),
            list.entries@.len() == 0,
            forall|f: Seq<char>, p: Seq<char>| !(#[trigger] list.is_idle(f, p)),
    {
        let list = IdleList { entries: Vec::new() };
        proof {
            assert forall|f: Seq<char>, p: Seq<char>| !(#[trigger] list.is_idle(f, p)) by {
                if has_func(list.entries@, f) {
                    let i = func_index(list.entries@, f);
                }
            }
        }
        list
    }

    /// Appends one rule to the table, at the end of the function's rule list.
    #[verifier::loop_isolation(false)]
    fn add_rule(&mut self, func: String, prog: Program)
        requires
            old(self).wf(),
        ensures
            final(self).wf(),
            forall|f: Seq<char>, p: Seq<char>|
                #[trigger] final(self).is_idle(f, p) <==> (old(self).is_idle(f, p) || (f == func@
                    && rule_matches(p, prog))),
    {
        let ghost es0 = self.entries@;
        let len = self.entries.len();
        let mut k: usize = 0;
        loop
            invariant
                *self == *old(self),
                0 <= k <= len,
                len == self.entries@.len(),
                forall|x: int| 0 <= x < k ==> (#[trigger] self.entries@[x].func@) != func@,
            decreases len - k,
        {
            if k == len {
                break;
            }
            if self.entries[k].func.eq(&func) {
                // The function already has rules: extend them.
                proof {
                    lemma_func_index_of(es0, k as int);
                }
                let mut e = self.entries.remove(k);
                let ghost rules0 = e.programs@;
                e.programs.push(prog);
                self.entries.insert(k, e);
                proof {
                    let es2 = self.entries@;
                    assert(es2 =~= es0.update(k as int, e));
                    assert(forall|x: int|
                        0 <= x < es0.len() ==> (#[trigger] es2[x].func@) == es0[x].func@);
                    lemma_func_index_of(es2, k as int);
                    assert(rules_of(es2, func@) == rules0.push(prog));
                    assert forall|f: Seq<char>| f != func@ implies #[trigger] rules_of(es2, f)
                        == rules_of(es0, f) by {
                        if has_func(es0, f) {
                            let x = func_index(es0, f);
                            lemma_func_index_of(es0, x);
                            assert(es2[x].func@ == f);
                            lemma_func_index_of(es2, x);
                        } else {
                            if has_func(es2, f) {
                                let x = func_index(es2, f);
                                assert(es0[x].func@ == f);
                            }
                        }
                    }
                    assert forall|f: Seq<char>, p: Seq<char>| #[trigger] self.is_idle(f, p) <==> (
                    old(self).is_idle(f, p) || (f == func@ && rule_matches(p, prog))) by {
                        if f == func@ {
                            assert(rules_of(es0, f) == rules0);
                            assert(rules_of(es2, f) == rules0.push(prog));
                            lemma_is_idle_push(*old(self), *self, f, p, prog);
                        } else {
                            lemma_is_idle_frame(*old(self), *self, f, p);
                        }
                    }
                }
                return ;
            }
            k = k + 1;
        }
        // The function is new: append an entry for it.
        proof {
            assert(!has_func(es0, func@)) by {
                if has_func(es0, func@) {
                    let x = func_index(es0, func@);
                }
            }
        }
        let e = IdleEntry { func, programs: vec![prog] };
        self.entries.push(e);
        proof {
            let es2 = self.entries@;
            assert(es2 =~= es0.push(e));
            assert(forall|x: int| 0 <= x < es0.len() ==> (#[trigger] es2[x]) == es0[x]);
            assert(es2[es0.len() as int] == e);
            assert(funcs_unique(es2)) by {
                assert forall|i: int, j: int| 0 <= i < j < es2.len() implies (
                #[trigger] es2[i].func@) != (#[trigger] es2[j].func@) by {
                    if j == es0.len() {
                        assert(es2[i].func@ == es0[i].func@);
                    }
                }
            }
            lemma_func_index_of(es2, es0.len() as int);
            assert(e.programs@ =~= seq![prog]);
            assert(rules_of(es2, e.func@) == seq![prog]);
            assert forall|f: Seq<char>| f != e.func@ implies #[trigger] rules_of(es2, f)
                == rules_of(es0, f) by {
                if has_func(es0, f) {
                    let x = func_index(es0, f);
                    lemma_func_index_of(es0, x);
                    assert(es2[x].func@ == f);
                    lemma_func_index_of(es2, x);
                } else {
                    if has_func(es2, f) {
                        let x = func_index(es2, f);
                        assert(x == es0.len());
                    }
                }
            }
            assert forall|f: Seq<char>, p: Seq<char>| #[trigger] self.is_idle(f, p) <==> (old(
                self,
            ).is_idle(f, p) || (f == e.func@ && rule_matches(p, prog))) by {
                if f == e.func@ {
                    assert(rules_of(es0, f) =~= Seq::<Program>::empty());
                    assert(rules_of(es2, f) =~= rules_of(es0, f).push(prog));
                    lemma_is_idle_push(*old(self), *self, f, p, prog);
                } else {
                    lemma_is_idle_frame(*old(self), *self, f, p);
                }
            }
        }
    }
}

/// Builds the idle rule table from the lines of a rules source.
///
/// Each line's first three fields are function, program name and mode letter
/// (`X` exact, `E` suffix, `C` substring); malformed lines declare nothing.
/// The resulting table marks `(f, p)` idle exactly when some line declares a
/// rule for `f` that matches `p`.
#[verifier::loop_isolation(false)]
pub fn load_idle_list(lines: &Vec<String>) -> (list: IdleList)
    ensures
        list.wf(),
        forall|f: Seq<char>, p: Seq<char>|
            #[trigger] list.is_idle(f, p) <==> exists|i: int|
                0 <= i < lines@.len() && #[trigger] line_matches(lines@[i]@, f, p),
{
    let mut list = IdleList::empty();
    let n = lines.len();
    let mut i: usize = 0;
    loop
        invariant
            0 <= i <= n,
            list.wf(),
            forall|f: Seq<char>, p: Seq<char>|
                #[trigger] list.is_idle(f, p) <==> exists|x: int|
                    0 <= x < i && #[trigger] line_matches(lines@[x]@, f, p),
        decreases n - i,
    {
        if i == n {
            break;
        }
        let ghost list0 = list;
        let line = &lines[i];
        let tokens = split_tokens(line.as_str());
        let ghost rule = rule_of_line(line@);
        if tokens.len() >= 3 {
            let mode_tok = &tokens[2];
            let mode = if matches!(str_compare(mode_tok.as_str(), "X"), StrOrder::Equal) {
                Some(CheckMode::Exact)
            } else if matches!(str_compare(mode_tok.as_str(), "E"), StrOrder::Equal) {
                Some(CheckMode::EndWith)
            } else if matches!(str_compare(mode_tok.as_str(), "C"), StrOrder::Equal) {
                Some(CheckMode::Contain)
            } else {
                None
            };
            if let Some(mode) = mode {
                let func = tokens[0].clone();
                let name = tokens[1].clone();
                let prog = Program { name, mode };
                proof {
                    assert(rule == Some((func@, prog.name@, mode)));
                }
                list.add_rule(func, prog);
                proof {
                    assert forall|f: Seq<char>, p: Seq<char>| #[trigger] list.is_idle(f, p)
                        <==> exists|x: int|
                        0 <= x < i + 1 && #[trigger] line_matches(lines@[x]@, f, p) by {
                        if list.is_idle(f, p) {
                            if list0.is_idle(f, p) {
                                let x = choose|x: int|
                                    0 <= x < i && #[trigger] line_matches(lines@[x]@, f, p);
                                assert(line_matches(lines@[x]@, f, p));
                            } else {
                                assert(line_matches(lines@[i as int]@, f, p));
                            }
                        } else {
                            assert(!line_matches(lines@[i as int]@, f, p));
                        }
                    }
                }
            } else {
                proof {
                    assert(rule is None);
                    assert(forall|f: Seq<char>, p: Seq<char>|
                        !(#[trigger] line_matches(lines@[i as int]@, f, p)));
                }
            }
        } else {
            proof {
                assert(rule is None);
                assert(forall|f: Seq<char>, p: Seq<char>|
                    !(#[trigger] line_matches(lines@[i as int]@, f, p)));
            }
        }
        i = i + 1;
    }
    list
}

/// Decides whether `func` running `program` is idle: the rules of `func`
/// are tried in source order and the first match wins; a function without
/// rules is never idle.
#[verifier::loop_isolation(false)]
pub fn check_idle(list: &IdleList, func: &String, program: &String) -> (r: bool)
    requires
        list.wf(),
    ensures
        r == list.is_idle(func@, program@),
{
    let len = list.entries.len();
    let mut k: usize = 0;
    loop
        invariant
            0 <= k <= len,
            forall|x: int| 0 <= x < k ==> (#[trigger] list.entries@[x].func@) != func@,
        decreases len - k,
    {
        if k == len {
            proof {
                assert(!has_func(list.entries@, func@)) by {
                    if has_func(list.entries@, func@) {
                        let x = func_index(list.entries@, func@);
                    }
                }
                assert(rules_of(list.entries@, func@) =~= Seq::<Program>::empty());
            }
            return false;
        }
        if list.entries[k].func.eq(func) {
            proof {
                lemma_func_index_of(list.entries@, k as int);
            }
            let entry = &list.entries[k];
            let m = entry.programs.len();
            let mut x: usize = 0;
            loop
                invariant
                    0 <= x <= m,
                    forall|y: int|
                        0 <= y < x ==> !rule_matches(program@, #[trigger] entry.programs@[y]),
                decreases m - x,
            {
                if x == m {
                    return false;
                }
                let rule = &entry.programs[x];
                let matched = match rule.mode {
                    CheckMode::Exact => matches!(
                        str_compare(program.as_str(), rule.name.as_str()),
                        StrOrder::Equal
                    ),
                    CheckMode::EndWith => str_ends_with(program.as_str(), rule.name.as_str()),
                    CheckMode::Contain => str_contains(program.as_str(), rule.name.as_str()),
                };
                if matched {
                    proof {
                        assert(rule_matches(program@, entry.programs@[x as int]));
                    }
                    return true;
                }
                x = x + 1;
            }
        }
        k = k + 1;
    }
}

} // verus!
