//! The text-object scanner: a pull-based pass over one page's operation
//! stream that emits one `TextObject` per completed begin/end text block.

use vstd::prelude::*;

use crate::operations::{decode_text, elements_text, op_text, Op, TextDecodeError, TextElement};

verus! {

/// The text accumulated between a begin-text marker and its matching
/// end-text marker. Equality and cloning are by value.
#[derive(Debug)]
pub struct TextObject {
    pub text: String,
}

impl Clone for TextObject {
    fn clone(&self) -> (res: Self)
        ensures
            res == *self,
    {
        TextObject { text: self.text.clone() }
    }
}

impl PartialEq for TextObject {
    fn eq(&self, other: &Self) -> (r: bool) {
        self.text == other.text
    }
}

impl vstd::std_specs::cmp::PartialEqSpecImpl for TextObject {
    open spec fn obeys_eq_spec() -> bool {
        true
    }

    open spec fn eq_spec(&self, other: &Self) -> bool {
        self.text@ == other.text@
    }
}

/// What one pull of the scanner does to an operation stream, given the text
/// accumulated so far: run out of input, fail on a malformed payload, or
/// emit the accumulated text at an end marker and leave the rest.
#[verifier::ext_equal]
pub enum ScanStep {
    Finished { acc: Seq<char> },
    Failed,
    Emit { text: Seq<char>, rest: Seq<Op> },
}

/// One pull of the scanner over `ops`, accumulating onto `acc`: markers and
/// unrelated operations are skipped, draws append their decoded text, and
/// the first end marker emits.
pub open spec fn scan_next(ops: Seq<Op>, acc: Seq<char>) -> ScanStep
    decreases ops.len(),
{
    if ops.len() == 0 {
        ScanStep::Finished { acc }
    } else {
        match ops[0] {
            Op::EndText => ScanStep::Emit { text: acc, rest: ops.drop_first() },
            _ => match op_text(ops[0]) {
                Some(s) => scan_next(ops.drop_first(), acc + s),
                None => ScanStep::Failed,
            },
        }
    }
}

/// The texts of all completed text blocks of `ops` after the accumulator
/// starts as `acc`, or `None` when a payload reachable by the scan is
/// malformed. A trailing unterminated block emits nothing.
pub open spec fn scan_objects_acc(ops: Seq<Op>, acc: Seq<char>) -> Option<Seq<Seq<char>>>
    decreases ops.len(),
{
    if ops.len() == 0 {
        Some(Seq::<Seq<char>>::empty())
    } else {
        match ops[0] {
            Op::EndText => match scan_objects_acc(ops.drop_first(), Seq::<char>::empty()) {
                Some(rest) => Some(seq![acc] + rest),
                None => None,
            },
            _ => match op_text(ops[0]) {
                Some(s) => scan_objects_acc(ops.drop_first(), acc + s),
                None => None,
            },
        }
    }
}

/// The texts of all completed text blocks of `ops`, in order, or `None`
/// when a payload reachable by the scan is malformed.
pub open spec fn scan_objects(ops: Seq<Op>) -> Option<Seq<Seq<char>>> {
    scan_objects_acc(ops, Seq::<char>::empty())
}

/// `scan_objects_acc` is one `scan_next` pull followed by a fresh scan of
/// what that pull left.
pub proof fn lemma_scan_split(ops: Seq<Op>, acc: Seq<char>)
    ensures
        scan_objects_acc(ops, acc) == match scan_next(ops, acc) {
            ScanStep::Finished { .. } => Some(Seq::<Seq<char>>::empty()),
            ScanStep::Failed => None::<Seq<Seq<char>>>,
            ScanStep::Emit { text, rest } => match scan_objects_acc(rest, Seq::<char>::empty()) {
                Some(r) => Some(seq![text] + r),
                None => None,
            },
        },
    decreases ops.len(),
{
    if ops.len() == 0 {
    } else {
        match ops[0] {
            Op::EndText => {},
            _ => {
                match op_text(ops[0]) {
                    Some(s) => {
                        lemma_scan_split(ops.drop_first(), acc + s);
                    },
                    None => {},
                }
            },
        }
    }
}

/// An emitting pull consumes at least the end marker: the rest is shorter.
pub proof fn lemma_scan_next_emit_shorter(ops: Seq<Op>, acc: Seq<char>)
    ensures
        match scan_next(ops, acc) {
            ScanStep::Emit { rest, .. } => rest.len() < ops.len(),
            _ => true,
        },
    decreases ops.len(),
{
    if ops.len() == 0 {
    } else {
        match ops[0] {
            Op::EndText => {},
            _ => {
                match op_text(ops[0]) {
                    Some(s) => {
                        lemma_scan_next_emit_shorter(ops.drop_first(), acc + s);
                    },
                    None => {},
                }
            },
        }
    }
}

/// The scanner: it owns a cursor into one page's operations and the text
/// accumulated since the last emitted object.
pub struct TextObjectParser<'src> {
    ops: &'src Vec<Op>,
    pos: usize,
}

impl<'src> TextObjectParser<'src> {
    /// The operations the scanner has not consumed yet.
    pub closed spec fn remaining(self) -> Seq<Op> {
        self.ops@.skip(self.pos as int)
    }

    /// The cursor never points past the end of the operations.
    pub closed spec fn wf(self) -> bool {
        self.pos <= self.ops@.len()
    }

    /// Advances to the next completed text block and returns its text, or
    /// `Ok(None)` when the operations are exhausted first (a trailing
    /// unterminated block is dropped), or an error on a malformed payload.
    pub fn next(&mut self) -> (r: Result<Option<TextObject>, TextDecodeError>)
        requires
            old(self).wf(),
        ensures
            final(self).wf(),
            match scan_next(old(self).remaining(), Seq::<char>::empty()) {
                ScanStep::Finished { .. } => {
                    &&& r == Ok::<Option<TextObject>, TextDecodeError>(None)
                    &&& final(self).remaining().len() == 0
                },
                ScanStep::Failed => r == Err::<Option<TextObject>, TextDecodeError>(
                    TextDecodeError,
                ),
                ScanStep::Emit { text, rest } => {
                    &&& r matches Ok(Some(t)) && t.text@ == text
                    &&& final(self).remaining() == rest
                    &&& final(self).remaining().len() < old(self).remaining().len()
                },
            },
    {
        let ops: &Vec<Op> = self.ops;
        let mut last_text = String::new();
        loop
            invariant
                self.wf(),
                self.ops == ops,
                old(self).ops == ops,
                old(self).wf(),
                self.pos >= old(self).pos,
                scan_next(old(self).remaining(), Seq::<char>::empty()) == scan_next(
                    self.remaining(),
                    last_text@,
                ),
            decreases ops@.len() - self.pos,
        {
            if self.pos >= ops.len() {
                return Ok(None);
            }
            let i = self.pos;
            proof {
                assert(self.remaining()[0] == ops@[i as int]);
                assert(self.remaining().drop_first() =~= ops@.skip(i as int + 1));
                assert(last_text@ + Seq::<char>::empty() =~= last_text@);
            }
            match &ops[i] {
                Op::BeginText => {
                    self.pos = i + 1;
                },
                Op::Other => {
                    self.pos = i + 1;
                },
                Op::EndText => {
                    self.pos = i + 1;
                    proof {
                        assert(scan_next(ops@.skip(i as int), last_text@) == ScanStep::Emit {
                            text: last_text@,
                            rest: ops@.skip(i as int + 1),
                        });
                        assert(i >= old(self).pos);
                        assert(old(self).remaining().len() == ops@.len() - old(self).pos);
                        assert(ops@.skip(i as int + 1).len() == ops@.len() - (i as int + 1));
                    }
                    return Ok(Some(TextObject { text: last_text }));
                },
                Op::TextDraw(b) => {
                    match decode_text(b) {
                        Ok(s) => {
                            last_text.append(s.as_str());
                            self.pos = i + 1;
                        },
                        Err(e) => {
                            return Err(e);
                        },
                    }
                },
                Op::TextDrawAdjusted(arr) => {
                    match append_elements(&mut last_text, arr) {
                        Ok(()) => {
                            self.pos = i + 1;
                        },
                        Err(e) => {
                            return Err(e);
                        },
                    }
                },
            }
        }
    }
}

/// Appends to `dst` the decoded text of every payload element of `arr`, in
/// order, failing on the first malformed payload.
fn append_elements(dst: &mut String, arr: &Vec<TextElement>) -> (r: Result<(), TextDecodeError>)
    ensures
        match r {
            Ok(_) => {
                &&& elements_text(arr@) matches Some(s)
                &&& final(dst)@ == old(dst)@ + elements_text(arr@)->Some_0
            },
            Err(e) => elements_text(arr@) is None,
        },
{
    let ghost entry: Seq<char> = dst@;
    proof {
        assert(arr@.skip(0) =~= arr@);
        assert(dst@.take(entry.len() as int) =~= entry);
        assert(dst@.skip(entry.len() as int) =~= Seq::<char>::empty());
        if elements_text(arr@) is Some {
            assert(Seq::<char>::empty() + elements_text(arr@)->Some_0 =~= elements_text(
                arr@,
            )->Some_0);
        }
    }
    let mut j: usize = 0;
    while j < arr.len()
        invariant
            j <= arr.len(),
            entry.len() <= dst@.len(),
            dst@.take(entry.len() as int) == entry,
            elements_text(arr@) == match elements_text(arr@.skip(j as int)) {
                Some(s) => Some(dst@.skip(entry.len() as int) + s),
                None => None::<Seq<char>>,
            },
        decreases arr.len() - j,
    {
        let ghost pre: Seq<char> = dst@;
        proof {
            assert(arr@.skip(j as int)[0] == arr@[j as int]);
            assert(arr@.skip(j as int).drop_first() =~= arr@.skip(j as int + 1));
        }
        match &arr[j] {
            TextElement::Adjustment(_) => {
                proof {
                    assert(Seq::<char>::empty() + pre.skip(entry.len() as int) =~= pre.skip(
                        entry.len() as int,
                    ));
                    if elements_text(arr@.skip(j as int + 1)) is Some {
                        let s = elements_text(arr@.skip(j as int + 1))->Some_0;
                        assert(pre.skip(entry.len() as int) + (Seq::<char>::empty() + s)
                            =~= pre.skip(entry.len() as int) + s);
                    }
                }
            },
            TextElement::Text(b) => {
                match decode_text(b) {
                    Ok(s) => {
                        dst.append(s.as_str());
                        proof {
                            assert(dst@ == pre + s@);
                            assert(dst@.take(entry.len() as int) =~= pre.take(
                                entry.len() as int,
                            ));
                            assert(dst@.skip(entry.len() as int) =~= pre.skip(entry.len() as int)
                                + s@);
                            if elements_text(arr@.skip(j as int + 1)) is Some {
                                let rest = elements_text(arr@.skip(j as int + 1))->Some_0;
                                assert(pre.skip(entry.len() as int) + (s@ + rest) =~= dst@.skip(
                                    entry.len() as int,
                                ) + rest);
                            }
                        }
                    },
                    Err(e) => {
                        return Err(e);
                    },
                }
            },
        }
        j = j + 1;
    }
    proof {
        assert(arr@.skip(arr@.len() as int) =~= Seq::<TextElement>::empty());
        assert(dst@.skip(entry.len() as int) + Seq::<char>::empty() =~= dst@.skip(
            entry.len() as int,
        ));
        assert(dst@ =~= dst@.take(entry.len() as int) + dst@.skip(entry.len() as int));
    }
    Ok(())
}

/// Builds a scanner positioned at the start of `ops`.
pub fn text_objects<'src>(ops: &'src Vec<Op>) -> (p: TextObjectParser<'src>)
    ensures
        p.wf(),
        p.remaining() == ops@,
{
    proof {
        assert(ops@.skip(0) =~= ops@);
    }
    TextObjectParser { ops, pos: 0 }
}


/// One pull over a concatenation resolves in the first part, or carries its
/// accumulated text into the second.
pub proof fn lemma_scan_next_concat(s1: Seq<Op>, s2: Seq<Op>, acc: Seq<char>)
    ensures
        scan_next(s1 + s2, acc) == match scan_next(s1, acc) {
            ScanStep::Finished { acc: a } => scan_next(s2, a),
            ScanStep::Failed => ScanStep::Failed,
            ScanStep::Emit { text, rest } => ScanStep::Emit { text, rest: rest + s2 },
        },
    decreases s1.len(),
{
    if s1.len() == 0 {
        assert(s1 + s2 =~= s2);
    } else {
        assert((s1 + s2)[0] == s1[0]);
        assert((s1 + s2).drop_first() =~= s1.drop_first() + s2);
        match s1[0] {
            Op::EndText => {
                assert(scan_next(s1 + s2, acc) == ScanStep::Emit {
                    text: acc,
                    rest: s1.drop_first() + s2,
                });
            },
            _ => {
                match op_text(s1[0]) {
                    Some(s) => {
                        lemma_scan_next_concat(s1.drop_first(), s2, acc + s);
                    },
                    None => {},
                }
            },
        }
    }
}

/// Inserting one operation that closes no block and draws nothing changes
/// none of the emitted objects.
proof fn lemma_skip_op_insertion(pre: Seq<Op>, op: Op, post: Seq<Op>)
    requires
        op is BeginText || op is Other,
    ensures
        scan_objects(pre + seq![op] + post) == scan_objects(pre + post),
    decreases pre.len(),
{
    let with_op = pre + seq![op] + post;
    let without = pre + post;
    assert(with_op =~= pre + (seq![op] + post));
    lemma_scan_next_concat(pre, seq![op] + post, Seq::<char>::empty());
    lemma_scan_next_concat(pre, post, Seq::<char>::empty());
    lemma_scan_split(with_op, Seq::<char>::empty());
    lemma_scan_split(without, Seq::<char>::empty());
    match scan_next(pre, Seq::<char>::empty()) {
        ScanStep::Finished { acc: a } => {
            assert((seq![op] + post)[0] == op);
            assert((seq![op] + post).drop_first() =~= post);
            assert(op_text(op) == Some(Seq::<char>::empty()));
            assert(a + Seq::<char>::empty() =~= a);
            assert(scan_next(seq![op] + post, a) == scan_next(post, a));
            assert(scan_next(with_op, Seq::<char>::empty()) == scan_next(post, a));
            assert(scan_next(without, Seq::<char>::empty()) == scan_next(post, a));
        },
        ScanStep::Failed => {},
        ScanStep::Emit { text, rest } => {
            lemma_scan_next_emit_shorter(pre, Seq::<char>::empty());
            assert(rest + (seq![op] + post) =~= rest + seq![op] + post);
            lemma_skip_op_insertion(rest, op, post);
        },
    }
}

/// Unrelated operations are transparent to extraction: inserting an `Other`
/// operation anywhere in the stream changes no emitted object's text.
pub proof fn lemma_other_op_ignored(pre: Seq<Op>, post: Seq<Op>)
    ensures
        scan_objects(pre + seq![Op::Other] + post) == scan_objects(pre + post),
{
    lemma_skip_op_insertion(pre, Op::Other, post);
}

/// A begin-marker never resets the accumulated text: inserting a duplicate
/// begin-marker anywhere — in particular inside an already-open block —
/// changes no emitted object.
pub proof fn lemma_nested_begin_noop(pre: Seq<Op>, post: Seq<Op>)
    ensures
        scan_objects(pre + seq![Op::BeginText] + post) == scan_objects(pre + post),
{
    lemma_skip_op_insertion(pre, Op::BeginText, post);
}

/// A block body: operations that close no block and whose payloads all
/// decode.
pub open spec fn body_ok(body: Seq<Op>) -> bool {
    forall|j: int|
        0 <= j < body.len() ==> !((#[trigger] body[j]) is EndText) && op_text(body[j]) is Some
}

/// The text drawn by a sequence of operations whose payloads all decode.
pub open spec fn body_text(body: Seq<Op>) -> Seq<char>
    decreases body.len(),
{
    if body.len() == 0 {
        Seq::<char>::empty()
    } else {
        (if op_text(body[0]) is Some {
            op_text(body[0])->Some_0
        } else {
            Seq::<char>::empty()
        }) + body_text(body.drop_first())
    }
}

/// One complete text block: a begin-marker, its body, its end-marker.
pub open spec fn block_ops(body: Seq<Op>) -> Seq<Op> {
    seq![Op::BeginText] + body + seq![Op::EndText]
}

/// A stream of complete text blocks, one after the other.
pub open spec fn blocks_ops(blocks: Seq<Seq<Op>>) -> Seq<Op>
    decreases blocks.len(),
{
    if blocks.len() == 0 {
        Seq::<Op>::empty()
    } else {
        block_ops(blocks[0]) + blocks_ops(blocks.drop_first())
    }
}

/// Scanning a decodable, end-free body accumulates exactly its drawn text.
proof fn lemma_scan_next_body(body: Seq<Op>, rest: Seq<Op>, acc: Seq<char>)
    requires
        body_ok(body),
    ensures
        scan_next(body + rest, acc) == scan_next(rest, acc + body_text(body)),
    decreases body.len(),
{
    if body.len() == 0 {
        assert(body + rest =~= rest);
        assert(acc + body_text(body) =~= acc);
    } else {
        assert((body + rest)[0] == body[0]);
        assert((body + rest).drop_first() =~= body.drop_first() + rest);
        let s = op_text(body[0])->Some_0;
        assert(body_ok(body.drop_first())) by {
            assert(forall|j: int|
                0 <= j < body.drop_first().len() ==> #[trigger] body.drop_first()[j] == body[j
                    + 1]);
        }
        lemma_scan_next_body(body.drop_first(), rest, acc + s);
        assert((acc + s) + body_text(body.drop_first()) =~= acc + (s + body_text(
            body.drop_first(),
        )));
        assert(body_text(body) == s + body_text(body.drop_first()));
    }
}

/// A stream without end-markers, all of whose payloads decode, emits
/// nothing.
proof fn lemma_scan_tail(s: Seq<Op>, acc: Seq<char>)
    requires
        body_ok(s),
    ensures
        scan_objects_acc(s, acc) == Some(Seq::<Seq<char>>::empty()),
    decreases s.len(),
{
    if s.len() == 0 {
    } else {
        assert(body_ok(s.drop_first())) by {
            assert(forall|j: int|
                0 <= j < s.drop_first().len() ==> #[trigger] s.drop_first()[j] == s[j + 1]);
        }
        let t = op_text(s[0])->Some_0;
        lemma_scan_tail(s.drop_first(), acc + t);
    }
}

/// Scanner balance: a stream of complete begin/end blocks, followed by at
/// most one unterminated trailing begin-block, yields exactly one object per
/// complete block — the text drawn inside that block, in order — and
/// nothing at all for the trailing unterminated block.
pub proof fn lemma_scanner_balance(blocks: Seq<Seq<Op>>, trailing: Seq<Op>)
    requires
        forall|i: int| 0 <= i < blocks.len() ==> body_ok(#[trigger] blocks[i]),
        trailing.len() == 0 || (trailing[0] is BeginText && body_ok(trailing.drop_first())),
    ensures
        scan_objects(blocks_ops(blocks) + trailing) == Some(
            blocks.map_values(|b: Seq<Op>| body_text(b)),
        ),
    decreases blocks.len(),
{
    if blocks.len() == 0 {
        assert(blocks_ops(blocks) + trailing =~= trailing);
        assert(blocks.map_values(|b: Seq<Op>| body_text(b)) =~= Seq::<Seq<char>>::empty());
        if trailing.len() == 0 {
        } else {
            assert(op_text(trailing[0]) == Some(Seq::<char>::empty()));
            lemma_scan_tail(
                trailing.drop_first(),
                Seq::<char>::empty() + Seq::<char>::empty(),
            );
        }
    } else {
        let body = blocks[0];
        let tail_blocks = blocks.drop_first();
        let rest_all = blocks_ops(tail_blocks) + trailing;
        let whole = blocks_ops(blocks) + trailing;
        assert(whole =~= seq![Op::BeginText] + (body + (seq![Op::EndText] + rest_all)));
        let after_begin = body + (seq![Op::EndText] + rest_all);
        assert((seq![Op::BeginText] + after_begin)[0] == Op::BeginText);
        assert((seq![Op::BeginText] + after_begin).drop_first() =~= after_begin);
        assert(Seq::<char>::empty() + Seq::<char>::empty() =~= Seq::<char>::empty());
        lemma_scan_next_body(body, seq![Op::EndText] + rest_all, Seq::<char>::empty());
        assert((seq![Op::EndText] + rest_all)[0] == Op::EndText);
        assert((seq![Op::EndText] + rest_all).drop_first() =~= rest_all);
        assert(Seq::<char>::empty() + body_text(body) =~= body_text(body));
        assert(scan_next(whole, Seq::<char>::empty()) == ScanStep::Emit {
            text: body_text(body),
            rest: rest_all,
        });
        lemma_scan_split(whole, Seq::<char>::empty());
        lemma_scanner_balance(tail_blocks, trailing);
        assert(blocks.map_values(|b: Seq<Op>| body_text(b)) =~= seq![body_text(body)]
            + tail_blocks.map_values(|b: Seq<Op>| body_text(b)));
    }
}

} // verus!
