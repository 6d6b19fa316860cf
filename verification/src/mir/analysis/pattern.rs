use vstd::prelude::*;
use vstd::string::*;

use crate::files::{Node, Span};
use crate::mir::ast::{AttrPattern, LetBinding, Pattern, PatternDestructKind};
use crate::mir::lowerer::MirLowerer;
use crate::report::mir::{duplicate_binding_report, DuplicatePatternBindingError};
use crate::report::{appended, lemma_appended_nothing, lemma_appended_push, lemma_appended_trans, ReportView};
use crate::text::str_eq;

verus! {

/// A name bound by a pattern, with the span that binds it.
pub type Bound = (Seq<char>, Span);

/// The name a pattern binds itself, unless it is `_`.
pub open spec fn own_binding(p: Pattern) -> Seq<Bound> {
    match p.binding {
        Some(b) => if b.0@ == "_"@ { Seq::empty() } else { seq![(b.0@, b.1)] },
        None => Seq::empty(),
    }
}

/// The names bound inside the destructuring part of a pattern.
pub open spec fn destruct_bindings(p: Pattern) -> Seq<Bound>
    decreases p, 0nat,
{
    match p.destruct {
        Some(d) => match d.0 {
            PatternDestructKind::AttrSet { fields, .. } => field_bindings(fields@),
            PatternDestructKind::List { elements, .. } => element_bindings(elements@),
        },
        None => Seq::empty(),
    }
}

/// The names a pattern binds, in order, leaving out `_`.
pub open spec fn pattern_bindings(p: Pattern) -> Seq<Bound>
    decreases p, 1nat,
{
    own_binding(p) + destruct_bindings(p)
}

pub open spec fn field_bindings(fields: Seq<Node<AttrPattern>>) -> Seq<Bound>
    decreases fields, 2nat,
{
    if fields.len() == 0 {
        Seq::empty()
    } else {
        field_bindings(fields.drop_last()) + pattern_bindings(fields.last().0.pattern.0)
    }
}

pub open spec fn element_bindings(elements: Seq<Node<Pattern>>) -> Seq<Bound>
    decreases elements, 2nat,
{
    if elements.len() == 0 {
        Seq::empty()
    } else {
        element_bindings(elements.drop_last()) + pattern_bindings(elements.last().0)
    }
}

/// The names bound by the patterns of a group of let bindings.
pub open spec fn let_bindings_names(bindings: Seq<LetBinding>) -> Seq<Bound>
    decreases bindings.len(),
{
    if bindings.len() == 0 {
        Seq::empty()
    } else {
        let_bindings_names(bindings.drop_last()) + pattern_bindings(bindings.last().id.0)
    }
}

/// Where `name` is bound first in `bound`.
pub open spec fn first_binding(bound: Seq<Bound>, name: Seq<char>) -> Option<Span>
    decreases bound.len(),
{
    if bound.len() == 0 {
        None
    } else if bound[0].0 == name {
        Some(bound[0].1)
    } else {
        first_binding(bound.drop_first(), name)
    }
}

/// The reports for the names of `new`, bound after those of `prior`: one for
/// each name bound before, pointing at where it was bound first.
pub open spec fn duplicate_binding_reports(prior: Seq<Bound>, new: Seq<Bound>) -> Seq<ReportView>
    decreases new.len(),
{
    if new.len() == 0 {
        Seq::empty()
    } else {
        let rest = duplicate_binding_reports(prior, new.drop_last());
        let b = new.last();
        match first_binding(prior + new.drop_last(), b.0) {
            Some(first) => rest.push(duplicate_binding_report(b.1, first, b.0)),
            None => rest,
        }
    }
}

pub open spec fn seen_view(seen: Seq<(&str, Span)>) -> Seq<Bound> {
    seen.map_values(|p: (&str, Span)| (p.0@, p.1))
}

proof fn lemma_first_binding_push(bound: Seq<Bound>, b: Bound, name: Seq<char>)
    ensures
        first_binding(bound.push(b), name) == (match first_binding(bound, name) {
            Some(s) => Some(s),
            None => if b.0 == name { Some(b.1) } else { None },
        }),
    decreases bound.len(),
{
    if bound.len() > 0 {
        assert(bound.push(b).drop_first() =~= bound.drop_first().push(b));
        assert(bound.push(b)[0] == bound[0]);
        lemma_first_binding_push(bound.drop_first(), b, name);
        assert(first_binding(bound.push(b), name) == if bound[0].0 == name { Some(bound[0].1) } else { first_binding(bound.drop_first().push(b), name) });
    } else {
        assert(bound.push(b).drop_first() =~= Seq::<Bound>::empty());
        assert(bound.push(b)[0] == b);
        assert(first_binding(bound.push(b).drop_first(), name) == None::<Span>);
    }
}

proof fn lemma_duplicate_reports_concat(prior: Seq<Bound>, a: Seq<Bound>, b: Seq<Bound>)
    ensures
        duplicate_binding_reports(prior, a + b) == duplicate_binding_reports(prior, a) + duplicate_binding_reports(prior + a, b),
    decreases b.len(),
{
    if b.len() == 0 {
        assert(a + b =~= a);
        assert(duplicate_binding_reports(prior, a) + Seq::<ReportView>::empty() =~= duplicate_binding_reports(prior, a));
    } else {
        lemma_duplicate_reports_concat(prior, a, b.drop_last());
        assert((a + b).drop_last() =~= a + b.drop_last());
        assert((prior + a) + b.drop_last() =~= prior + (a + b.drop_last()));
        let rest = duplicate_binding_reports(prior, a) + duplicate_binding_reports(prior + a, b.drop_last());
        match first_binding(prior + (a + b.drop_last()), b.last().0) {
            Some(first) => {
                assert(rest.push(duplicate_binding_report(b.last().1, first, b.last().0)) =~= duplicate_binding_reports(prior, a) + duplicate_binding_reports(prior + a, b.drop_last()).push(duplicate_binding_report(b.last().1, first, b.last().0)));
            },
            None => {},
        }
    }
}

/// Looks `name` up in `seen`, front to back.
fn lookup_seen(seen: &Vec<(&str, Span)>, name: &str) -> (r: Option<Span>)
    ensures
        r == first_binding(seen_view(seen@), name@),
{
    let mut i: usize = 0;
    assert(seen_view(seen@).skip(0) =~= seen_view(seen@));
    while i < seen.len()
        invariant
            i <= seen@.len(),
            first_binding(seen_view(seen@), name@) == first_binding(seen_view(seen@).skip(i as int), name@),
        decreases seen@.len() - i,
    {
        let (n, s) = seen[i];
        assert(seen_view(seen@).skip(i as int).drop_first() =~= seen_view(seen@).skip(i + 1));
        if str_eq(n, name) {
            return Some(s);
        }
        i = i + 1;
    }
    None
}

impl MirLowerer {
    /// Reports each name that the pattern of a function argument binds twice.
    pub fn verify_lambda_pattern_bindings<'a>(&mut self, pattern: &Node<Pattern<'a>>)
        ensures
            appended(old(self).reports@, final(self).reports@, duplicate_binding_reports(Seq::empty(), pattern_bindings(pattern.0))),
    {
        let mut seen: Vec<(&'a str, Span)> = Vec::new();
        assert(seen_view(seen@) =~= Seq::<Bound>::empty());
        self.verify_pattern_bindings(pattern, &mut seen, Ghost(Seq::empty()));
    }

    /// Reports each name that the patterns of a group of let bindings bind
    /// twice, within one pattern or across them.
    pub fn verify_let_pattern_bindings<'a>(&mut self, bindings: &Vec<LetBinding<'a>>)
        ensures
            appended(old(self).reports@, final(self).reports@, duplicate_binding_reports(Seq::empty(), let_bindings_names(bindings@))),
    {
        let mut seen: Vec<(&'a str, Span)> = Vec::new();
        assert(seen_view(seen@) =~= Seq::<Bound>::empty());
        proof {
            lemma_appended_nothing(self.reports@);
            assert(bindings@.take(0) =~= Seq::<LetBinding>::empty());
        }
        let mut i: usize = 0;
        while i < bindings.len()
            invariant
                i <= bindings@.len(),
                forall|n: Seq<char>| first_binding(seen_view(seen@), n) == first_binding(let_bindings_names(bindings@.take(i as int)), n),
                appended(old(self).reports@, self.reports@, duplicate_binding_reports(Seq::empty(), let_bindings_names(bindings@.take(i as int)))),
            decreases bindings@.len() - i,
        {
            let ghost before = self.reports@;
            let ghost prior = let_bindings_names(bindings@.take(i as int));
            self.verify_pattern_bindings(&bindings[i].id, &mut seen, Ghost(prior));
            proof {
                let p = pattern_bindings(bindings@[i as int].id.0);
                assert(bindings@.take(i + 1).drop_last() =~= bindings@.take(i as int));
                assert(let_bindings_names(bindings@.take(i + 1)) == prior + p);
                lemma_duplicate_reports_concat(Seq::empty(), prior, p);
                assert(Seq::<Bound>::empty() + prior =~= prior);
                lemma_appended_trans(old(self).reports@, before, self.reports@, duplicate_binding_reports(Seq::empty(), prior), duplicate_binding_reports(prior, p));
            }
            i = i + 1;
        }
        assert(bindings@.take(i as int) =~= bindings@);
    }

    fn verify_pattern_bindings<'a>(&mut self, pattern: &Node<Pattern<'a>>, seen: &mut Vec<(&'a str, Span)>, Ghost(prior): Ghost<Seq<Bound>>)
        requires
            forall|n: Seq<char>| first_binding(seen_view(old(seen)@), n) == first_binding(prior, n),
        ensures
            forall|n: Seq<char>| first_binding(seen_view(final(seen)@), n) == first_binding(prior + pattern_bindings(pattern.0), n),
            appended(old(self).reports@, final(self).reports@, duplicate_binding_reports(prior, pattern_bindings(pattern.0))),
        decreases pattern,
    {
        let ghost own: Seq<Bound> = own_binding(pattern.0);
        proof {
            lemma_appended_nothing(self.reports@);
        }
        match pattern.0.binding {
            Some(Node(name, span)) => {
                if !str_eq(name, "_") {
                    let ghost before = self.reports@;
                    match lookup_seen(seen, name) {
                        Some(first) => {
                            let err = DuplicatePatternBindingError { span, first, name: String::from_str(name) };
                            self.reports.emit(err.to_report());
                            proof {
                                lemma_appended_push(before, self.reports@.last());
                                assert(before.push(self.reports@.last()) == self.reports@);
                            }
                        },
                        None => {
                            seen.push((name, span));
                            proof {
                                assert(seen_view(seen@) =~= seen_view(old(seen)@).push((name@, span)));
                                assert forall|n: Seq<char>| first_binding(seen_view(seen@), n) == first_binding(prior.push((name@, span)), n) by {
                                    lemma_first_binding_push(seen_view(old(seen)@), (name@, span), n);
                                    lemma_first_binding_push(prior, (name@, span), n);
                                }
                            }
                        },
                    }
                    proof {
                        assert(own =~= seq![(name@, span)]);
                        assert(own.drop_last() =~= Seq::<Bound>::empty());
                        assert(prior + own.drop_last() =~= prior);
                        assert(prior + own =~= prior.push((name@, span)));
                        assert(duplicate_binding_reports(prior, own.drop_last()) =~= Seq::<ReportView>::empty());
                    }
                } else {
                    assert(own =~= Seq::<Bound>::empty());
                    assert(prior + own =~= prior);
                }
            },
            None => {
                assert(prior + own =~= prior);
            },
        }
        proof {
            assert forall|n: Seq<char>| first_binding(seen_view(seen@), n) == first_binding(prior + own, n) by {
                if own.len() == 1 {
                    assert(prior + own =~= prior.push(own[0]));
                    lemma_first_binding_push(prior, own[0], n);
                } else {
                    assert(prior + own =~= prior);
                }
            }
        }
        let ghost after_own = self.reports@;
        let ghost prior2 = prior + own;
        match &pattern.0.destruct {
            Some(d) => {
                match &d.0 {
                    PatternDestructKind::AttrSet { fields, .. } => {
                        proof {
                            lemma_appended_nothing(self.reports@);
                            assert(fields@.take(0) =~= Seq::<Node<AttrPattern>>::empty());
                            assert(prior2 + field_bindings(fields@.take(0)) =~= prior2);
                        }
                        let mut i: usize = 0;
                        while i < fields.len()
                            invariant
                                i <= fields@.len(),
                                pattern.0.destruct == Some(*d),
                                d.0 is AttrSet,
                                d.0->fields == *fields,
                                forall|n: Seq<char>| first_binding(seen_view(seen@), n) == first_binding(prior2 + field_bindings(fields@.take(i as int)), n),
                                appended(after_own, self.reports@, duplicate_binding_reports(prior2, field_bindings(fields@.take(i as int)))),
                            decreases fields@.len() - i,
                        {
                            let ghost before = self.reports@;
                            let ghost done = field_bindings(fields@.take(i as int));
                            proof {
                                let dd = pattern.0.destruct->0;
                                assert(pattern.0.destruct == Some(*d));
                                assert(decreases_to!(pattern.0 => pattern.0.destruct));
                                assert(decreases_to!(pattern.0.destruct => dd));
                                assert(decreases_to!(dd => dd.0));
                                assert(dd.0 is AttrSet);
                                assert(decreases_to!(dd.0 => dd.0->fields));
                                assert(decreases_to!(dd.0->fields => dd.0->fields@));
                                assert(decreases_to!(fields@ => fields@[i as int]));
                                assert(decreases_to!(fields@[i as int] => fields@[i as int].0));
                                assert(decreases_to!(fields@[i as int].0 => fields@[i as int].0.pattern));
                            }
                            self.verify_pattern_bindings(&fields[i].0.pattern, seen, Ghost(prior2 + done));
                            proof {
                                let p = pattern_bindings(fields@[i as int].0.pattern.0);
                                assert(fields@.take(i + 1).drop_last() =~= fields@.take(i as int));
                                assert(field_bindings(fields@.take(i + 1)) == done + p);
                                assert(prior2 + done + p =~= prior2 + (done + p));
                                lemma_duplicate_reports_concat(prior2, done, p);
                                lemma_appended_trans(after_own, before, self.reports@, duplicate_binding_reports(prior2, done), duplicate_binding_reports(prior2 + done, p));
                            }
                            i = i + 1;
                        }
                        assert(fields@.take(i as int) =~= fields@);
                    },
                    PatternDestructKind::List { elements, .. } => {
                        proof {
                            lemma_appended_nothing(self.reports@);
                            assert(elements@.take(0) =~= Seq::<Node<Pattern>>::empty());
                            assert(prior2 + element_bindings(elements@.take(0)) =~= prior2);
                        }
                        let mut i: usize = 0;
                        while i < elements.len()
                            invariant
                                i <= elements@.len(),
                                pattern.0.destruct == Some(*d),
                                d.0 is List,
                                d.0->elements == *elements,
                                forall|n: Seq<char>| first_binding(seen_view(seen@), n) == first_binding(prior2 + element_bindings(elements@.take(i as int)), n),
                                appended(after_own, self.reports@, duplicate_binding_reports(prior2, element_bindings(elements@.take(i as int)))),
                            decreases elements@.len() - i,
                        {
                            let ghost before = self.reports@;
                            let ghost done = element_bindings(elements@.take(i as int));
                            proof {
                                let dd = pattern.0.destruct->0;
                                assert(pattern.0.destruct == Some(*d));
                                assert(decreases_to!(pattern.0 => pattern.0.destruct));
                                assert(decreases_to!(pattern.0.destruct => dd));
                                assert(decreases_to!(dd => dd.0));
                                assert(dd.0 is List);
                                assert(decreases_to!(dd.0 => dd.0->elements));
                                assert(decreases_to!(dd.0->elements => dd.0->elements@));
                                assert(decreases_to!(elements@ => elements@[i as int]));
                            }
                            self.verify_pattern_bindings(&elements[i], seen, Ghost(prior2 + done));
                            proof {
                                let p = pattern_bindings(elements@[i as int].0);
                                assert(elements@.take(i + 1).drop_last() =~= elements@.take(i as int));
                                assert(element_bindings(elements@.take(i + 1)) == done + p);
                                assert(prior2 + done + p =~= prior2 + (done + p));
                                lemma_duplicate_reports_concat(prior2, done, p);
                                lemma_appended_trans(after_own, before, self.reports@, duplicate_binding_reports(prior2, done), duplicate_binding_reports(prior2 + done, p));
                            }
                            i = i + 1;
                        }
                        assert(elements@.take(i as int) =~= elements@);
                    },
                }
            },
            None => {
                proof {
                    lemma_appended_nothing(self.reports@);
                    assert(prior2 + Seq::<Bound>::empty() =~= prior2);
                    assert(duplicate_binding_reports(prior2, Seq::<Bound>::empty()) =~= Seq::<ReportView>::empty());
                }
            },
        }
        proof {
            let inner = destruct_bindings(pattern.0);
            lemma_duplicate_reports_concat(prior, own, inner);
            assert(prior + own + inner =~= prior + (own + inner));
            lemma_appended_trans(old(self).reports@, after_own, self.reports@, duplicate_binding_reports(prior, own), duplicate_binding_reports(prior + own, inner));
        }
    }
}

proof fn lemma_first_binding_some(bound: Seq<Bound>, k: int)
    requires
        0 <= k < bound.len(),
    ensures
        first_binding(bound, bound[k].0) is Some,
    decreases bound.len(),
{
    if bound[0].0 != bound[k].0 {
        assert(bound.drop_first()[k - 1] == bound[k]);
        lemma_first_binding_some(bound.drop_first(), k - 1);
    }
}

proof fn lemma_first_binding_none(bound: Seq<Bound>, name: Seq<char>)
    requires
        forall|k: int| 0 <= k < bound.len() ==> bound[k].0 != name,
    ensures
        first_binding(bound, name) is None,
    decreases bound.len(),
{
    if bound.len() > 0 {
        assert forall|k: int| 0 <= k < bound.drop_first().len() implies bound.drop_first()[k].0 != name by {
            assert(bound.drop_first()[k] == bound[k + 1]);
        }
        lemma_first_binding_none(bound.drop_first(), name);
    }
}

/// A name bound twice by the patterns of one group is reported.
pub proof fn law_rebinding_is_reported(prior: Seq<Bound>, new: Seq<Bound>, i: int, j: int)
    requires
        0 <= i < j < new.len(),
        new[i].0 == new[j].0,
    ensures
        duplicate_binding_reports(prior, new).len() > 0,
    decreases new.len(),
{
    if j == new.len() - 1 {
        assert((prior + new.drop_last())[prior.len() + i] == new[i]);
        lemma_first_binding_some(prior + new.drop_last(), prior.len() + i);
    } else {
        law_rebinding_is_reported(prior, new.drop_last(), i, j);
    }
}

/// Patterns that bind each name once, none bound before, are not reported.
pub proof fn law_distinct_bindings_are_accepted(prior: Seq<Bound>, new: Seq<Bound>)
    requires
        forall|i: int, j: int| 0 <= i < j < new.len() ==> new[i].0 != new[j].0,
        forall|i: int, k: int| 0 <= i < new.len() && 0 <= k < prior.len() ==> new[i].0 != prior[k].0,
    ensures
        duplicate_binding_reports(prior, new) == Seq::<ReportView>::empty(),
    decreases new.len(),
{
    if new.len() > 0 {
        law_distinct_bindings_are_accepted(prior, new.drop_last());
        let all = prior + new.drop_last();
        assert forall|k: int| 0 <= k < all.len() implies all[k].0 != new.last().0 by {
            if k >= prior.len() {
                assert(all[k] == new[k - prior.len()]);
            }
        }
        lemma_first_binding_none(all, new.last().0);
    }
}

} // verus!
