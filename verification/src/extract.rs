//! The per-page and per-document pipeline: scan a page's operations into
//! text objects, group adjacent duplicates, and keep one representative
//! text per group.

use vstd::prelude::*;

use vstd::std_specs::cmp::PartialEqSpec;

use crate::grouping::{
    all_nonempty, concat_groups, group_by, group_matches, lemma_concat_groups_push,
};
use crate::operations::{Op, TextDecodeError};
use crate::scanner::{
    lemma_scan_split, scan_objects, scan_objects_acc, text_objects, TextObject,
};

verus! {

/// The texts of a sequence of objects, in order.
pub open spec fn texts_of(objs: Seq<TextObject>) -> Seq<Seq<char>> {
    objs.map_values(|t: TextObject| t.text@)
}

/// Concatenation after collapsing adjacent duplicates: each text contributes
/// itself unless it equals the text just before it.
pub open spec fn reps_concat(texts: Seq<Seq<char>>) -> Seq<char>
    decreases texts.len(),
{
    if texts.len() == 0 {
        Seq::<char>::empty()
    } else {
        reps_concat(texts.drop_last()) + (if texts.len() >= 2 && texts[texts.len() - 2]
            == texts.last() {
            Seq::<char>::empty()
        } else {
            texts.last()
        })
    }
}

/// The first items' texts of a sequence of groups, concatenated in order.
pub open spec fn firsts_text(gs: Seq<Seq<TextObject>>) -> Seq<char>
    decreases gs.len(),
{
    if gs.len() == 0 {
        Seq::<char>::empty()
    } else {
        firsts_text(gs.drop_last()) + gs.last()[0].text@
    }
}

/// The last item of a flattened grouping is the last item of its last group.
proof fn lemma_concat_groups_last(gs: Seq<Seq<TextObject>>)
    requires
        gs.len() > 0,
        gs.last().len() > 0,
    ensures
        concat_groups(gs).len() > 0,
        concat_groups(gs).last() == gs.last().last(),
{
    assert(gs =~= gs.drop_last().push(gs.last()));
    lemma_concat_groups_push(gs.drop_last(), gs.last());
    assert(concat_groups(gs) == concat_groups(gs.drop_last()) + gs.last());
}

/// Taking one representative per maximal run equals taking each group's
/// first text: collapsing adjacent duplicate texts over the flattened items
/// yields the concatenation of the groups' first texts.
pub proof fn lemma_reps_of_groups(gs: Seq<Seq<TextObject>>)
    requires
        forall|i: int| 0 <= i < gs.len() ==> #[trigger] gs[i].len() > 0,
        forall|i: int, j: int|
            0 <= i < gs.len() && 0 <= j < gs[i].len() ==> (#[trigger] gs[i][j]).text@
                == gs[i][0].text@,
        forall|i: int|
            0 < i < gs.len() ==> (#[trigger] gs[i])[0].text@ != gs[i - 1][0].text@,
    ensures
        reps_concat(texts_of(concat_groups(gs))) == firsts_text(gs),
    decreases gs.len(), (if gs.len() > 0 { gs.last().len() } else { 0 }),
{
    if gs.len() == 0 {
        assert(concat_groups(gs) =~= Seq::<TextObject>::empty());
        assert(texts_of(concat_groups(gs)) =~= Seq::<Seq<char>>::empty());
    } else if gs.last().len() == 1 {
        let init = gs.drop_last();
        let g = gs.last();
        assert(gs =~= init.push(g));
        lemma_concat_groups_push(init, g);
        let flat_init = concat_groups(init);
        let flat = concat_groups(gs);
        assert(flat == flat_init + g);
        assert(texts_of(flat) =~= texts_of(flat_init).push(g[0].text@));
        let tx = texts_of(flat);
        assert(tx.drop_last() =~= texts_of(flat_init));
        assert(tx.last() == g[0].text@);
        lemma_reps_of_groups(init);
        if init.len() == 0 {
            assert(flat_init =~= Seq::<TextObject>::empty());
            assert(tx.len() == 1);
            assert(reps_concat(tx) == reps_concat(tx.drop_last()) + tx.last());
        } else {
            lemma_concat_groups_last(init);
            assert(flat_init.last().text@ == init.last()[0].text@);
            assert(init.last() == gs[gs.len() - 2]);
            assert(gs[gs.len() - 1][0].text@ != gs[gs.len() - 2][0].text@);
            assert(tx[tx.len() - 2] == flat_init.last().text@);
            assert(tx[tx.len() - 2] != tx.last());
            assert(reps_concat(tx) == reps_concat(tx.drop_last()) + tx.last());
        }
        assert(firsts_text(gs) == firsts_text(init) + g[0].text@);
    } else {
        let g = gs.last();
        let shorter = gs.update(gs.len() - 1, g.drop_last());
        assert(shorter.last() == g.drop_last());
        assert(shorter.drop_last() =~= gs.drop_last());
        assert(gs =~= gs.drop_last().push(g));
        assert(shorter =~= gs.drop_last().push(g.drop_last()));
        lemma_concat_groups_push(gs.drop_last(), g);
        lemma_concat_groups_push(gs.drop_last(), g.drop_last());
        let flat = concat_groups(gs);
        let flat_short = concat_groups(shorter);
        assert(flat =~= flat_short.push(g.last()));
        let tx = texts_of(flat);
        assert(tx.drop_last() =~= texts_of(flat_short));
        assert(tx.last() == g.last().text@);
        lemma_concat_groups_last(shorter);
        assert(flat_short.last() == g.drop_last().last());
        assert(g.drop_last().last() == g[g.len() - 2]);
        assert(g[g.len() - 2].text@ == g[0].text@);
        assert(g.last().text@ == g[0].text@);
        assert(tx[tx.len() - 2] == flat_short.last().text@);
        assert(tx[tx.len() - 2] == tx.last());
        assert(reps_concat(tx) == reps_concat(tx.drop_last()) + Seq::<char>::empty());
        assert(reps_concat(tx.drop_last()) + Seq::<char>::empty() =~= reps_concat(
            tx.drop_last(),
        ));
        assert forall|i: int| 0 <= i < shorter.len() implies #[trigger] shorter[i].len() > 0 by {
            if i < gs.len() - 1 {
                assert(shorter[i] == gs[i]);
            }
        }
        assert forall|i: int, j: int|
            0 <= i < shorter.len() && 0 <= j < shorter[i].len() implies (#[trigger] shorter[i][j]).text@
            == shorter[i][0].text@ by {
            if i < gs.len() - 1 {
                assert(shorter[i] == gs[i]);
                assert(gs[i][j].text@ == gs[i][0].text@);
            } else {
                assert(shorter[i] == g.drop_last());
                assert(g.drop_last()[j] == g[j]);
                assert(gs[i][j].text@ == gs[i][0].text@);
            }
        }
        assert forall|i: int|
            0 < i < shorter.len() implies (#[trigger] shorter[i])[0].text@ != shorter[i
            - 1][0].text@ by {
            assert(gs[i][0].text@ != gs[i - 1][0].text@);
            if i < gs.len() - 1 {
                assert(shorter[i] == gs[i]);
                assert(shorter[i - 1] == gs[i - 1]);
            } else {
                assert(shorter[i] == g.drop_last());
                assert(shorter[i - 1] == gs[i - 1]);
                assert(g.drop_last()[0] == g[0]);
            }
        }
        lemma_reps_of_groups(shorter);
        assert(firsts_text(shorter) == firsts_text(shorter.drop_last()) + shorter.last()[0].text@);
        assert(firsts_text(gs) == firsts_text(gs.drop_last()) + g[0].text@);
        assert(shorter.last()[0] == g[0]);
    }
}

/// Extracts the deduplicated text of one page: the texts of its completed
/// text blocks, with adjacent duplicates collapsed to one occurrence,
/// concatenated in block order; or an error when a payload is malformed.
pub fn page_text(ops: &Vec<Op>) -> (r: Result<String, TextDecodeError>)
    ensures
        match scan_objects(ops@) {
            Some(texts) => r matches Ok(s) && s@ == reps_concat(texts),
            None => r == Err::<String, TextDecodeError>(TextDecodeError),
        },
{
    let mut parser = text_objects(ops);
    let mut objects: Vec<TextObject> = Vec::new();
    loop
        invariant
            parser.wf(),
            match scan_objects_acc(parser.remaining(), Seq::<char>::empty()) {
                Some(rest_texts) => scan_objects(ops@) == Some(texts_of(objects@) + rest_texts),
                None => scan_objects(ops@) is None,
            },
        ensures
            scan_objects(ops@) == Some(texts_of(objects@)),
        decreases parser.remaining().len(),
    {
        let ghost pre_remaining = parser.remaining();
        let ghost pre_objs = objects@;
        proof {
            lemma_scan_split(pre_remaining, Seq::<char>::empty());
        }
        match parser.next() {
            Ok(Some(t)) => {
                objects.push(t);
                proof {
                    assert(texts_of(objects@) =~= texts_of(pre_objs).push(t.text@));
                    if scan_objects_acc(parser.remaining(), Seq::<char>::empty()) is Some {
                        let rest_texts = scan_objects_acc(
                            parser.remaining(),
                            Seq::<char>::empty(),
                        )->Some_0;
                        assert(texts_of(pre_objs) + (seq![t.text@] + rest_texts) =~= texts_of(
                            objects@,
                        ) + rest_texts);
                    }
                }
            },
            Ok(None) => {
                proof {
                    assert(texts_of(objects@) + Seq::<Seq<char>>::empty() =~= texts_of(
                        objects@,
                    ));
                }
                break ;
            },
            Err(e) => {
                return Err(e);
            },
        }
    }
    let ghost objs_seq = objects@;
    let clone_key = |t: &TextObject| -> (k: TextObject)
        ensures
            k == *t,
        { t.clone() };
    proof {
        assert(forall|i: int| 0 <= i < objs_seq.len() ==> call_requires(
            clone_key,
            (&objs_seq[i],),
        ));
    }
    let groups = group_by(objects, clone_key);
    let ghost gviews = groups@.map_values(|g: Vec<TextObject>| g@);
    proof {
        assert(forall|t: &TextObject, k: TextObject|
            call_ensures(clone_key, (t,), k) ==> k == *t);
        assert forall|i: int, j: int|
            0 <= i < gviews.len() && 0 <= j < gviews[i].len() implies (#[trigger] gviews[i][j]).text@
            == gviews[i][0].text@ by {
            if j > 0 {
                assert(group_matches(clone_key, gviews[i]));
                let (kj, k0) = choose|kj: TextObject, k0: TextObject|
                    {
                        &&& call_ensures(clone_key, (&gviews[i][j],), kj)
                        &&& call_ensures(clone_key, (&gviews[i][0],), k0)
                        &&& kj.eq_spec(&k0)
                    };
                assert(kj == gviews[i][j]);
                assert(k0 == gviews[i][0]);
            }
        }
        assert forall|i: int|
            0 < i < gviews.len() implies (#[trigger] gviews[i])[0].text@ != gviews[i
            - 1][0].text@ by {
            let (kn, kp) = choose|kn: TextObject, kp: TextObject|
                {
                    &&& call_ensures(clone_key, (&gviews[i][0],), kn)
                    &&& call_ensures(clone_key, (&gviews[i - 1][0],), kp)
                    &&& !kn.eq_spec(&kp)
                };
            assert(kn == gviews[i][0]);
            assert(kp == gviews[i - 1][0]);
        }
        lemma_reps_of_groups(gviews);
        assert(texts_of(concat_groups(gviews)) == texts_of(objs_seq));
    }
    let mut result = String::new();
    let mut gi: usize = 0;
    while gi < groups.len()
        invariant
            gi <= groups.len(),
            gviews == groups@.map_values(|g: Vec<TextObject>| g@),
            all_nonempty(gviews),
            result@ == firsts_text(gviews.take(gi as int)),
        decreases groups@.len() - gi,
    {
        proof {
            assert(gviews[gi as int] == groups@[gi as int]@);
            assert(gviews[gi as int].len() > 0);
        }
        let g: &Vec<TextObject> = &groups[gi];
        let first: &TextObject = &g[0];
        result.append(first.text.as_str());
        proof {
            assert(gviews.take(gi as int + 1).drop_last() =~= gviews.take(gi as int));
            assert(gviews.take(gi as int + 1).last() == gviews[gi as int]);
            assert(gviews[gi as int] == groups@[gi as int]@);
        }
        gi = gi + 1;
    }
    proof {
        assert(gviews.take(gviews.len() as int) =~= gviews);
    }
    Ok(result)
}

/// The extracted text of a whole document: each page's deduplicated block
/// texts, concatenated in page order with no separator; `None` when any
/// page holds a malformed payload.
pub open spec fn document_text(pages: Seq<Seq<Op>>) -> Option<Seq<char>>
    decreases pages.len(),
{
    if pages.len() == 0 {
        Some(Seq::<char>::empty())
    } else {
        match (scan_objects(pages[0]), document_text(pages.drop_first())) {
            (Some(ts), Some(rest)) => Some(reps_concat(ts) + rest),
            _ => None,
        }
    }
}

/// Extracts the text of a whole document, page by page, failing fast on the
/// first malformed payload.
pub fn extract_text(pages: &Vec<Vec<Op>>) -> (r: Result<String, TextDecodeError>)
    ensures
        match document_text(pages@.map_values(|p: Vec<Op>| p@)) {
            Some(t) => r matches Ok(s) && s@ == t,
            None => r == Err::<String, TextDecodeError>(TextDecodeError),
        },
{
    let ghost pviews = pages@.map_values(|p: Vec<Op>| p@);
    let mut result = String::new();
    let mut pi: usize = 0;
    proof {
        assert(pviews.skip(0) =~= pviews);
        if document_text(pviews) is Some {
            let t: Seq<char> = document_text(pviews)->Some_0;
            assert(Seq::<char>::empty() + t =~= t);
        }
    }
    while pi < pages.len()
        invariant
            pi <= pages.len(),
            pviews == pages@.map_values(|p: Vec<Op>| p@),
            match document_text(pviews.skip(pi as int)) {
                Some(t) => document_text(pviews) == Some(result@ + t),
                None => document_text(pviews) is None,
            },
        decreases pages@.len() - pi,
    {
        proof {
            assert(pviews.skip(pi as int)[0] == pviews[pi as int]);
            assert(pviews.skip(pi as int).drop_first() =~= pviews.skip(pi as int + 1));
            assert(pviews[pi as int] == pages@[pi as int]@);
        }
        let ghost pre_result = result@;
        match page_text(&pages[pi]) {
            Ok(s) => {
                result.append(s.as_str());
                proof {
                    if document_text(pviews.skip(pi as int + 1)) is Some {
                        let t = document_text(pviews.skip(pi as int + 1))->Some_0;
                        let ts: Seq<Seq<char>> = scan_objects(pviews[pi as int])->Some_0;
                        assert(pre_result + (reps_concat(ts) + t) =~= result@ + t);
                    }
                }
            },
            Err(e) => {
                return Err(e);
            },
        }
        pi = pi + 1;
    }
    proof {
        assert(pviews.skip(pages@.len() as int) =~= Seq::<Seq<Op>>::empty());
        assert(result@ + Seq::<char>::empty() =~= result@);
    }
    Ok(result)
}


} // verus!
