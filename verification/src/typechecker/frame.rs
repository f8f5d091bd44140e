//! Where definitions differ.

use super::definitions;
use super::definitions::DefinitionView;
use crate::parser::construct::ConstructView;
use crate::parser::order;
use crate::parser::token::SpannedToken;
use vstd::prelude::*;

verus! {

/// Whether a byte has the same definition in both.
pub open spec fn same_at(
    a: Map<usize, DefinitionView>,
    b: Map<usize, DefinitionView>,
    byte: usize,
) -> bool {
    &&& a.dom().contains(byte) <==> b.dom().contains(byte)
    &&& a.dom().contains(byte) ==> a[byte] == b[byte]
}

/// Whether one of the tokens starts no later than the byte.
pub open spec fn started(tokens: Seq<SpannedToken>, byte: usize) -> bool {
    exists|i: int| 0 <= i < tokens.len() && (#[trigger] tokens[i]).0 <= byte
}

/// Whether one of the tokens ends no earlier than the byte.
pub open spec fn ended(tokens: Seq<SpannedToken>, byte: usize) -> bool {
    exists|i: int| 0 <= i < tokens.len() && byte <= (#[trigger] tokens[i]).2
}

pub broadcast proof fn lemma_started(a: Seq<SpannedToken>, b: Seq<SpannedToken>, byte: usize)
    ensures
        #[trigger] started(a + b, byte) <==> started(a, byte) || started(b, byte),
{
    if started(a, byte) {
        let i = choose|i: int| 0 <= i < a.len() && (#[trigger] a[i]).0 <= byte;
        assert((a + b)[i].0 <= byte);
    }
    if started(b, byte) {
        let i = choose|i: int| 0 <= i < b.len() && (#[trigger] b[i]).0 <= byte;
        assert((a + b)[a.len() + i].0 <= byte);
    }
    if started(a + b, byte) {
        let i = choose|i: int| 0 <= i < (a + b).len() && (#[trigger] (a + b)[i]).0 <= byte;
        if i < a.len() {
            assert(a[i].0 <= byte);
        } else {
            assert(b[i - a.len()].0 <= byte);
        }
    }
}

pub broadcast proof fn lemma_ended(a: Seq<SpannedToken>, b: Seq<SpannedToken>, byte: usize)
    ensures
        #[trigger] ended(a + b, byte) <==> ended(a, byte) || ended(b, byte),
{
    if ended(a, byte) {
        let i = choose|i: int| 0 <= i < a.len() && byte <= (#[trigger] a[i]).2;
        assert(byte <= (a + b)[i].2);
    }
    if ended(b, byte) {
        let i = choose|i: int| 0 <= i < b.len() && byte <= (#[trigger] b[i]).2;
        assert(byte <= (a + b)[a.len() + i].2);
    }
    if ended(a + b, byte) {
        let i = choose|i: int| 0 <= i < (a + b).len() && byte <= (#[trigger] (a + b)[i]).2;
        if i < a.len() {
            assert(byte <= a[i].2);
        } else {
            assert(byte <= b[i - a.len()].2);
        }
    }
}

pub broadcast proof fn lemma_started_one(token: SpannedToken, byte: usize)
    ensures
        #[trigger] started(seq![token], byte) <==> token.0 <= byte,
{
    assert(seq![token][0] == token);
}

pub broadcast proof fn lemma_ended_one(token: SpannedToken, byte: usize)
    ensures
        #[trigger] ended(seq![token], byte) <==> byte <= token.2,
{
    assert(seq![token][0] == token);
}

pub proof fn lemma_ends_at(tokens: Seq<SpannedToken>, end: usize)
    requires
        order::ends_at(tokens, end),
    ensures
        ended(tokens, end),
{
    let i = choose|i: int| 0 <= i < tokens.len() && (#[trigger] tokens[i]).2 == end;
    assert(end <= tokens[i].2);
}

/// Whether the definitions differ at most from the first byte of some tokens to the last.
pub open spec fn keeps(
    before: Map<usize, DefinitionView>,
    after: Map<usize, DefinitionView>,
    tokens: Seq<SpannedToken>,
) -> bool {
    forall|byte: usize| #[trigger]
        same_at(before, after, byte) || (started(tokens, byte) && ended(tokens, byte))
}

pub broadcast proof fn lemma_keeps_wider(
    before: Map<usize, DefinitionView>,
    after: Map<usize, DefinitionView>,
    a: Seq<SpannedToken>,
    b: Seq<SpannedToken>,
)
    requires
        keeps(before, after, a) || keeps(before, after, b),
    ensures
        #[trigger] keeps(before, after, a + b),
{
    broadcast use {lemma_started, lemma_ended};

}

pub proof fn lemma_keeps_twice(
    first: Map<usize, DefinitionView>,
    second: Map<usize, DefinitionView>,
    third: Map<usize, DefinitionView>,
    tokens: Seq<SpannedToken>,
)
    requires
        keeps(first, second, tokens),
        keeps(second, third, tokens),
    ensures
        keeps(first, third, tokens),
{
    assert forall|byte: usize| #[trigger]
        same_at(first, third, byte) || (started(tokens, byte) && ended(tokens, byte)) by {
        assert(same_at(first, second, byte) || (started(tokens, byte) && ended(tokens, byte)));
        assert(same_at(second, third, byte) || (started(tokens, byte) && ended(tokens, byte)));
    }
}

pub proof fn lemma_defined(
    before: Map<usize, DefinitionView>,
    start: usize,
    end: usize,
    kind: DefinitionView,
    tokens: Seq<SpannedToken>,
)
    requires
        started(tokens, start),
        ended(tokens, end),
    ensures
        keeps(before, definitions::defined(before, start, end, kind), tokens),
{
    let after = definitions::defined(before, start, end, kind);
    let first = choose|i: int| 0 <= i < tokens.len() && (#[trigger] tokens[i]).0 <= start;
    let last = choose|i: int| 0 <= i < tokens.len() && end <= (#[trigger] tokens[i]).2;
    assert forall|byte: usize| #[trigger]
        same_at(before, after, byte) || (started(tokens, byte) && ended(tokens, byte)) by {
        if start <= byte <= end {
            assert(tokens[first].0 <= byte);
            assert(byte <= tokens[last].2);
        }
    }
}

/// Tokens in order, in two parts: both are in order, and the first ends before the second
/// starts.
pub proof fn lemma_parts_are_ordered(a: Seq<SpannedToken>, b: Seq<SpannedToken>)
    requires
        order::is_ordered(a + b),
    ensures
        order::is_ordered(a),
        order::is_ordered(b),
        forall|i: int, j: int|
            0 <= i < a.len() && 0 <= j < b.len() ==> (#[trigger] a[i]).2 <= (#[trigger] b[j]).0,
{
    let all = a + b;
    assert forall|i: int| 0 <= i < a.len() implies all[i] == #[trigger] a[i] by {}
    assert forall|i: int| 0 <= i < b.len() implies all[a.len() + i] == #[trigger] b[i] by {}
    assert forall|i: int| 0 <= i < b.len() implies (#[trigger] b[i]).0 <= b[i].2 by {
        assert(all[a.len() + i].0 <= all[a.len() + i].2);
    }
    assert forall|i: int, j: int| 0 <= i < j < b.len() implies (#[trigger] b[i]).2 <= (
    #[trigger] b[j]).0 by {
        assert(all[a.len() + i].2 <= all[a.len() + j].0);
    }
    assert forall|i: int, j: int| 0 <= i < a.len() && 0 <= j < b.len() implies (
    #[trigger] a[i]).2 <= (#[trigger] b[j]).0 by {
        assert(all[i].2 <= all[a.len() + j].0);
    }
}

/// The tokens of one of several constructs are among those of all.
pub proof fn lemma_item<'a>(content: Seq<ConstructView<'a>>, i: int, byte: usize)
    requires
        0 <= i < content.len(),
    ensures
        started(order::tokens_of(content[i]), byte) ==> started(
            order::all_tokens_of(content),
            byte,
        ),
        ended(order::tokens_of(content[i]), byte) ==> ended(order::all_tokens_of(content), byte),
        order::is_ordered(order::all_tokens_of(content)) ==> order::is_ordered(
            order::tokens_of(content[i]),
        ),
    decreases content.len(),
{
    broadcast use {lemma_started, lemma_ended};

    let front = content.drop_last();
    let last = content[content.len() - 1];
    if order::is_ordered(order::all_tokens_of(content)) {
        lemma_parts_are_ordered(order::all_tokens_of(front), order::tokens_of(last));
    }
    if i < front.len() {
        assert(front[i] == content[i]);
        lemma_item(front, i, byte);
    }
}

/// Whether the bytes in front of `to`, from `from` on, have a definition.
pub open spec fn holds(
    after: Map<usize, DefinitionView>,
    from: usize,
    to: usize,
    kind: DefinitionView,
) -> bool {
    forall|byte: usize|
        from <= byte < to ==> #[trigger] after.dom().contains(byte) && after[byte] == kind
}

/// Whether all tokens end no later than the byte.
pub open spec fn end_by(tokens: Seq<SpannedToken>, byte: usize) -> bool {
    forall|i: int| 0 <= i < tokens.len() ==> (#[trigger] tokens[i]).2 <= byte
}

pub broadcast proof fn lemma_end_by(a: Seq<SpannedToken>, b: Seq<SpannedToken>, byte: usize)
    requires
        #[trigger] end_by(a + b, byte),
    ensures
        end_by(a, byte),
        end_by(b, byte),
{
    assert forall|i: int| 0 <= i < a.len() implies (#[trigger] a[i]).2 <= byte by {
        assert((a + b)[i].2 <= byte);
    }
    assert forall|i: int| 0 <= i < b.len() implies (#[trigger] b[i]).2 <= byte by {
        assert((a + b)[a.len() + i].2 <= byte);
    }
}

pub broadcast proof fn lemma_end_by_one(token: SpannedToken, byte: usize)
    ensures
        #[trigger] end_by(seq![token], byte) <==> token.2 <= byte,
{
    assert(seq![token][0] == token);
}

pub proof fn lemma_items_end_by<'a>(content: Seq<ConstructView<'a>>, i: int, byte: usize)
    requires
        0 <= i < content.len(),
        end_by(order::all_tokens_of(content), byte),
    ensures
        end_by(order::tokens_of(content[i]), byte),
    decreases content.len(),
{
    broadcast use lemma_end_by;

    let front = content.drop_last();
    if i < front.len() {
        assert(front[i] == content[i]);
        lemma_items_end_by(front, i, byte);
    }
}

/// The tokens of several constructs are those in front of one of them, its own and those behind
/// it.
pub proof fn lemma_split_at<'a>(content: Seq<ConstructView<'a>>, i: int)
    requires
        0 <= i < content.len(),
    ensures
        order::all_tokens_of(content) == order::all_tokens_of(content.subrange(0, i)) + (
        order::tokens_of(content[i]) + order::all_tokens_of(
            content.subrange(i + 1, content.len() as int),
        )),
    decreases content.len(),
{
    let n = content.len() as int;
    let front = content.drop_last();
    if i == n - 1 {
        assert(content.subrange(0, i) =~= front);
        assert(content.subrange(n, n) =~= Seq::empty());
        assert(order::all_tokens_of(content) =~= order::all_tokens_of(content.subrange(0, i)) + (
        order::tokens_of(content[i]) + order::all_tokens_of(content.subrange(i + 1, n))));
    } else {
        lemma_split_at(front, i);
        assert(front.subrange(0, i) =~= content.subrange(0, i));
        assert(content.subrange(i + 1, n).drop_last() =~= front.subrange(i + 1, n - 1));
        assert(content.subrange(i + 1, n).last() == content[n - 1]);
        assert(order::all_tokens_of(content) =~= order::all_tokens_of(content.subrange(0, i)) + (
        order::tokens_of(content[i]) + order::all_tokens_of(content.subrange(i + 1, n))));
    }
}

/// The first token ends no later than another one.
pub proof fn lemma_first_ends_early(tokens: Seq<SpannedToken>, end: usize)
    requires
        order::is_ordered(tokens),
        order::ends_at(tokens, end),
    ensures
        tokens[0].2 <= end,
{
    let i = choose|i: int| 0 <= i < tokens.len() && (#[trigger] tokens[i]).2 == end;
    if i > 0 {
        assert(tokens[0].2 <= tokens[i].0);
        assert(tokens[i].0 <= tokens[i].2);
    }
}

} // verus!
