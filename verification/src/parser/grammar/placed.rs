//! What has no place in a scope is reported.

use super::origin;
use super::report;
use super::{Part, Scope, State};
use crate::diagnostic::{DiagnosticView, Severity};
use crate::parser::construct::{ConstructView, DelimitedView, NodeView};
use crate::parser::error;
use crate::parser::error::{ParseError, ParseErrorMessage};
use crate::parser::token::{Delimiters, SpannedToken, Token, TokenSet};
use crate::text;
use vstd::prelude::*;

verus! {

/// What constructs of a kind are called, and where they have no place, if they stand in a scope
/// that is not for them: properties, priorities and names belong to rules and macros, derives to
/// the document, and macros too.
pub open spec fn misplaced_in(construct: ConstructView, scope: Scope) -> Option<
    (Seq<char>, Seq<char>),
> {
    match (scope, construct) {
        (Scope::Global, ConstructView::Priority { .. }) => Some(
            ("Priorities"@, "the global scope"@),
        ),
        (Scope::Global, ConstructView::Name { .. }) => Some(("Names"@, "the global scope"@)),
        (Scope::Global, ConstructView::Assignment { left, .. }) => if left.token.1 is Identifier {
            Some(("Property assignments"@, "the global scope"@))
        } else {
            None
        },
        (Scope::Macro, ConstructView::Macro { .. }) => Some(("Macros"@, "other macros"@)),
        (Scope::Macro, ConstructView::Derive { .. }) => Some(("Derives"@, "non-global scopes"@)),
        (Scope::Rule, ConstructView::Macro { .. }) => Some(("Macros"@, "rules"@)),
        (Scope::Rule, ConstructView::Derive { .. }) => Some(("Derives"@, "non-global scopes"@)),
        _ => None,
    }
}

/// The diagnostic about a construct that has no place where it stands.
pub open spec fn not_allowed(
    construct: ConstructView,
    name: Seq<char>,
    context: Seq<char>,
    text: Seq<char>,
) -> DiagnosticView {
    DiagnosticView {
        range: text::range_of(text, (construct.start() as int, construct.end() as int)),
        severity: Severity::Error,
        code: "UNEXPECTED_TOKENS"@,
        source: "RSML LSP"@,
        message: "Unexpected Token(s): "@ + (name + " are not allowed in "@ + context + "."@),
        data: None,
    }
}

/// Whether a construct has its place in a scope, or it is reported that it has not, and so with
/// what is in it.
pub open spec fn is_placed(construct: ConstructView, scope: Scope, end: State) -> bool
    decreases construct, 1nat,
{
    &&& misplaced_in(construct, scope) matches Some((name, context)) ==> end.errors.contains(
        not_allowed(construct, name, context, end.text),
    )
    &&& has_places(construct, end)
}

/// Whether what is in a construct has its place there, or it is reported that it has not.
pub open spec fn has_places(construct: ConstructView, end: State) -> bool
    decreases construct, 0nat,
{
    match construct {
        ConstructView::Rule { body: Some(body), .. } => body_has_places(body, Scope::Rule, end),
        ConstructView::Macro { return_type, body: Some(body), .. } => super::scope::context_of(
            return_type,
        ) is Construct ==> body_has_places(body, Scope::Macro, end),
        _ => true,
    }
}

pub open spec fn body_has_places(body: DelimitedView, scope: Scope, end: State) -> bool
    decreases body, 1nat,
{
    match body.content {
        Some(content) => all_placed(content, scope, end),
        None => true,
    }
}

pub open spec fn all_placed(content: Seq<ConstructView>, scope: Scope, end: State) -> bool
    decreases content, 2nat,
{
    forall|i: int| 0 <= i < content.len() ==> is_placed(#[trigger] content[i], scope, end)
}

/// Whether a construct is of the kind that the parser looked for.
spec fn is_of(construct: ConstructView, part: Part) -> bool {
    match part {
        Part::Macro => construct is Macro,
        Part::MacroCall => construct is MacroCall,
        Part::Derive => construct is Derive,
        Part::Priority => construct is Priority,
        Part::Name => construct is Name,
        Part::Tween => construct is Tween,
        Part::StaticTokenAssignment | Part::TokenAssignment => construct matches
            ConstructView::Assignment { left, .. } && !(left.token.1 is Identifier),
        Part::PropertyOrRule => construct is Rule || (construct matches ConstructView::Assignment {
            left,
            ..
        } && left.token.1 is Identifier),
        Part::SelectorBegin => construct is Rule,
        Part::InvalidDeclaration => false,
        Part::Absent => construct is Absent,
    }
}

/// Whether what was read is a rule, and what is in it has its place.
spec fn is_rule<'a>(
    read: (State<'a>, Option<NodeView<'a>>, Option<ConstructView<'a>>),
    end: State<'a>,
) -> bool {
    read.2 matches Some(c) ==> c is Rule && (origin::leads_to(read.0, end) ==> has_places(c, end))
}

spec fn is_macro<'a>(
    read: (State<'a>, Option<NodeView<'a>>, Option<ConstructView<'a>>),
    end: State<'a>,
) -> bool {
    read.2 matches Some(c) ==> c is Macro && (origin::leads_to(read.0, end) ==> has_places(c, end))
}

proof fn lemma_part<'a>(
    s: State<'a>,
    node: NodeView<'a>,
    part: Part,
    scope: Scope,
    end: State<'a>,
)
    ensures
        ({
            let (after, next, construct) = s.part(node, part, scope);
            construct matches Some(c) ==> is_of(c, part) && (origin::leads_to(after, end)
                ==> has_places(c, end))
        }),
    decreases s.remaining(), 2nat, 0nat,
{
    reveal(State::declaration);
    reveal(State::tween);
    reveal(State::assignment);
    reveal(State::assigned_value);
    reveal(State::macro_call_body);
    match part {
        Part::Macro => {
            lemma_macro_declaration(s, node, end);
        },
        Part::PropertyOrRule => {
            lemma_property_or_rule(s, node, end);
        },
        Part::SelectorBegin => {
            lemma_selector_begin(s, node, end);
        },
        _ => {},
    }
}

proof fn lemma_put<'a>(
    s: State<'a>,
    construct: ConstructView<'a>,
    content: Seq<ConstructView<'a>>,
    part: Part,
    scope: Scope,
    end: State<'a>,
)
    requires
        is_of(construct, part),
        has_places(construct, end),
        origin::leads_to(s.put(Some(construct), content, part, scope).0, end),
    ensures
        is_placed(construct, scope, end),
{
    reveal_with_fuel(is_placed, 2);
    if let Some((name, context)) = misplaced_in(construct, scope) {
        let words = super::objection(part, scope, construct);
        assert(words is Some && words->0@ == context);
        assert(construct.name_plural()@ == name);
        let error = ParseError::UnexpectedTokens {
            msg: Some(
                ParseErrorMessage::NotAllowed { name: construct.name_plural(), context: words },
            ),
        };
        let failed = s.fail(error, construct.span());
        let n = s.errors.len() as int;
        assert(failed.errors[n] == error::parse_diagnostic(error, s.range(construct.span())));
        assert(end.errors[n] == failed.errors[n]);
        assert(failed.errors[n].message =~= not_allowed(construct, name, context, end.text).message);
        assert(end.errors[n] == not_allowed(construct, name, context, end.text));
    }
}

proof fn lemma_step<'a>(
    s: State<'a>,
    node: NodeView<'a>,
    content: Seq<ConstructView<'a>>,
    part: Part,
    scope: Scope,
    end: State<'a>,
)
    ensures
        ({
            let (after, all, next) = s.step(node, content, part, scope);
            origin::leads_to(after, end) && all_placed(content, scope, end) ==> all_placed(
                all,
                scope,
                end,
            )
        }),
    decreases s.remaining(), 3nat, part.rank(),
{
    report::lemma_part(s, node, part, scope, s);
    lemma_part(s, node, part, scope, end);
    let (after, all, _) = s.step(node, content, part, scope);
    let (s1, next, construct) = s.part(node, part, scope);
    let (s2, put) = s1.put(construct, content, part, scope);
    assert(origin::leads_to(s1, s2));
    if origin::leads_to(s2, end) && all_placed(content, scope, end) {
        assert(origin::leads_to(s1, end));
        if let Some(construct) = construct {
            lemma_put(s1, construct, content, part, scope, end);
        }
        assert(all_placed(put, scope, end));
    }
    if let (Some(next), Some(following)) = (next, part.following()) {
        if s2.remaining() <= s.remaining() {
            lemma_step(s2, next, put, following, scope, end);
            report::lemma_step(s2, next, put, following, scope, s);
        }
    }
}

proof fn lemma_scope_loop<'a>(
    s: State<'a>,
    node: NodeView<'a>,
    content: Seq<ConstructView<'a>>,
    scope: Scope,
    error_span: Option<(usize, usize)>,
    end: State<'a>,
)
    ensures
        ({
            let (after, all, close) = s.scope_loop(node, content, scope, error_span);
            origin::leads_to(after, end) && all_placed(content, scope, end) ==> all_placed(
                all,
                scope,
                end,
            )
        }),
    decreases s.remaining(), 4nat, 0nat,
{
    report::lemma_step(s, node, content, Part::Macro, scope, s);
    lemma_step(s, node, content, Part::Macro, scope, end);
    let (s1, more, next) = s.step(node, content, Part::Macro, scope);
    if let Some(next) = next {
        let ends = next.token.1 is ScopeClose;
        if s1.did_advance {
            let s2 = (State { did_advance: false, ..s1 }).fail_if(error_span);
            assert(origin::leads_to(s1, s2));
            if !ends && s2.remaining() < s.remaining() {
                lemma_scope_loop(s2, next, more, scope, error_span, end);
                report::lemma_scope_loop(s2, next, more, scope, error_span, s);
            }
        } else if ends {
            assert(origin::leads_to(s1, s1.fail_if(error_span)));
        } else {
            let span = super::scope::widened(error_span, next.token);
            origin::lemma_advance(s1);
            let (s2, following) = s1.accept();
            match following {
                Some(following) => if s2.remaining() < s.remaining() {
                    lemma_scope_loop(s2, following, more, scope, span, end);
                    report::lemma_scope_loop(s2, following, more, scope, span, s);
                },
                None => {
                    assert(origin::leads_to(s2, s2.fail_if(span)));
                },
            }
        }
    }
}

proof fn lemma_braced<'a>(s: State<'a>, open: NodeView<'a>, scope: Scope, end: State<'a>)
    ensures
        origin::leads_to(s.braced(open, scope).0, end) ==> body_has_places(
            s.braced(open, scope).2,
            scope,
            end,
        ),
    decreases s.remaining(), 0nat, 0nat,
{
    super::lemma_advance_without_flags(s);
    if let (s1, Some(node)) = s.advance() {
        if !(node.token.1 is ScopeClose) {
            let cleared = State { did_advance: false, ..s1 };
            lemma_scope_loop(cleared, node, seq![], scope, None, end);
            let (s2, content, close) = s1.scope_content(node, scope);
            let body = DelimitedView { left: open, content: Some(content), right: close };
            let s3 = if close is Some {
                s2
            } else {
                s2.fail(super::missing("\"}\""), super::clamped(body.end()))
            };
            assert(origin::leads_to(s2, s3));
            origin::lemma_advance(s3);
            if origin::leads_to(s3.advance().0, end) {
                assert(origin::leads_to(s3, end));
                assert(origin::leads_to(s2, end));
                assert(origin::leads_to(
                    cleared.scope_loop(node, seq![], scope, None).0,
                    end,
                ));
            }
        }
    }
}

proof fn lemma_rule_body<'a>(
    s: State<'a>,
    open: NodeView<'a>,
    selectors: Option<Seq<NodeView<'a>>>,
    end: State<'a>,
)
    ensures
        is_rule(s.rule_body(open, selectors), end),
    decreases s.remaining(), 0nat, 1nat,
{
    reveal_with_fuel(has_places, 2);
    lemma_braced(s, open, Scope::Rule, end);
}

proof fn lemma_macro_body<'a>(
    s: State<'a>,
    open: NodeView<'a>,
    declaration: NodeView<'a>,
    name: Option<NodeView<'a>>,
    args: Option<DelimitedView<'a>>,
    return_type: Option<(NodeView<'a>, Option<NodeView<'a>>)>,
    end: State<'a>,
)
    ensures
        is_macro(
            s.macro_body(
                open,
                declaration,
                name,
                args,
                return_type,
                super::scope::context_of(return_type),
            ),
            end,
        ),
    decreases s.remaining(), 0nat, 1nat,
{
    reveal_with_fuel(has_places, 2);
    lemma_braced(s, open, Scope::Macro, end);
}

proof fn lemma_macro_context<'a>(
    s: State<'a>,
    arrow: NodeView<'a>,
    declaration: NodeView<'a>,
    name: Option<NodeView<'a>>,
    args: Option<DelimitedView<'a>>,
    end: State<'a>,
)
    ensures
        is_macro(s.macro_context(arrow, declaration, name, args), end),
    decreases s.remaining(), 0nat, 2nat,
{
    reveal_with_fuel(has_places, 2);
    super::lemma_advance_until(s, TokenSet::MacroContext, Delimiters::Construct);
    if let (s1, Some(Ok(ident))) = s.advance_until(TokenSet::MacroContext, Delimiters::Construct) {
        let s2 = s1.check_context(ident.token);
        super::lemma_advance_until(s2, TokenSet::ScopeOpen, Delimiters::Construct);
        if let (s3, Some(Ok(open))) = s2.advance_until(
            TokenSet::ScopeOpen,
            Delimiters::Construct,
        ) {
            let return_type = Some((arrow, Some(ident)));
            lemma_macro_body(s3, open, declaration, name, args, return_type, end);
        }
    }
}

proof fn lemma_macro_rest<'a>(
    s: State<'a>,
    start: NodeView<'a>,
    declaration: NodeView<'a>,
    name: Option<NodeView<'a>>,
    args: Option<DelimitedView<'a>>,
    end: State<'a>,
)
    ensures
        is_macro(s.macro_rest(start, declaration, name, args), end),
    decreases s.remaining(), 0nat, 3nat,
{
    lemma_macro_context(s, start, declaration, name, args, end);
    lemma_macro_body(s, start, declaration, name, args, None, end);
    assert(super::scope::context_of(None) is Construct);
}

proof fn lemma_rule_selector<'a>(
    s: State<'a>,
    last: SpannedToken<'a>,
    selectors: Seq<NodeView<'a>>,
    comma_allowed: bool,
    end: State<'a>,
)
    ensures
        is_rule(s.rule_selector(last, selectors, comma_allowed), end),
    decreases s.remaining(), 0nat, 2nat,
{
    reveal_with_fuel(has_places, 2);
    let allow = if comma_allowed {
        TokenSet::SelectorPartOrComma
    } else {
        TokenSet::SelectorPart
    };
    super::lemma_advance_until(s, allow, Delimiters::Construct);
    if let (s1, Some(Ok(node))) = s.advance_until(allow, Delimiters::Construct) {
        let s2 = s1.check_hierarchy(last, node.token);
        if node.token.1 is ScopeOpen {
            let s3 = if !comma_allowed && last.1 is Comma {
                s2.fail(super::misplaced(), (last.0, last.2))
            } else {
                s2
            };
            lemma_rule_body(s3, node, Some(selectors), end);
        } else {
            lemma_rule_selector(
                s2,
                node.token,
                selectors.push(node),
                !(comma_allowed && node.token.1 is Comma),
                end,
            );
        }
    }
}

proof fn lemma_selector_begin<'a>(s: State<'a>, node: NodeView<'a>, end: State<'a>)
    ensures
        is_rule(s.selector_begin(node), end),
    decreases s.remaining(), 1nat, 0nat,
{
    lemma_rule_selector(s, node.token, seq![node], true, end);
    lemma_rule_body(s, node, None, end);
}

proof fn lemma_property_or_rule<'a>(s: State<'a>, node: NodeView<'a>, end: State<'a>)
    ensures
        ({
            let (after, next, construct) = s.property_or_rule(node);
            construct matches Some(c) ==> is_of(c, Part::PropertyOrRule) && (origin::leads_to(
                after,
                end,
            ) ==> has_places(c, end))
        }),
    decreases s.remaining(), 1nat, 0nat,
{
    reveal_with_fuel(has_places, 2);
    reveal(State::assigned_value);
    super::lemma_advance_until(s, TokenSet::PropertyOrSelector, Delimiters::Construct);
    if let (s1, Some(Ok(middle))) = s.advance_until(
        TokenSet::PropertyOrSelector,
        Delimiters::Construct,
    ) {
        lemma_rule_body(s1, middle, Some(seq![node]), end);
        lemma_rule_selector(s1, middle.token, seq![node, middle], false, end);
        lemma_rule_selector(s1, middle.token, seq![node, middle], true, end);
    }
}

proof fn lemma_macro_declaration<'a>(s: State<'a>, node: NodeView<'a>, end: State<'a>)
    ensures
        is_macro(s.macro_declaration(node), end),
    decreases s.remaining(), 1nat, 0nat,
{
    reveal_with_fuel(has_places, 2);
    super::lemma_advance_until(s, TokenSet::MacroName, Delimiters::Construct);
    if let (s1, Some(Ok(name))) = s.advance_until(TokenSet::MacroName, Delimiters::Construct) {
        super::lemma_advance_until(s1, TokenSet::MacroArgsOrBody, Delimiters::Construct);
        if let (s2, Some(Ok(open))) = s1.advance_until(
            TokenSet::MacroArgsOrBody,
            Delimiters::Construct,
        ) {
            lemma_macro_args(s2, open, node, Some(name), end);
            lemma_macro_rest(s2, open, node, Some(name), None, end);
        }
    }
}

proof fn lemma_macro_args<'a>(
    s: State<'a>,
    open: NodeView<'a>,
    declaration: NodeView<'a>,
    name: Option<NodeView<'a>>,
    end: State<'a>,
)
    ensures
        is_macro(s.macro_args(open, declaration, name), end),
    decreases s.remaining(), 0nat, 0nat,
{
    reveal_with_fuel(has_places, 2);
    super::lemma_advance_until(s, TokenSet::MacroArg, Delimiters::InsideParens);
    if let (s1, Some(Ok(node))) = s.advance_until(TokenSet::MacroArg, Delimiters::InsideParens) {
        lemma_macro_body_open(s1, declaration, name, open, None, node, end);
        lemma_macro_args_rest(
            s1,
            open,
            declaration,
            name,
            seq![ConstructView::Node { node }],
            node.token,
            end,
        );
    }
}

proof fn lemma_macro_args_rest<'a>(
    s: State<'a>,
    open: NodeView<'a>,
    declaration: NodeView<'a>,
    name: Option<NodeView<'a>>,
    args: Seq<ConstructView<'a>>,
    last: SpannedToken<'a>,
    end: State<'a>,
)
    ensures
        is_macro(s.macro_args_rest(open, declaration, name, args, last), end),
    decreases s.remaining(), 0nat, 0nat,
{
    reveal_with_fuel(has_places, 2);
    let allow = if last.1 is Comma {
        TokenSet::MacroArgAfterComma
    } else {
        TokenSet::MacroArg
    };
    super::lemma_advance_until(s, allow, Delimiters::InsideParens);
    if let (s1, Some(Ok(node))) = s.advance_until(allow, Delimiters::InsideParens) {
        lemma_macro_body_open(s1, declaration, name, open, Some(args), node, end);
        let s2 = if last.1 is MacroArgIdentifier && node.token.1 is MacroArgIdentifier {
            s1.fail(super::missing("\",\""), super::clamped(last.2))
        } else {
            s1
        };
        lemma_macro_args_rest(
            s2,
            open,
            declaration,
            name,
            args.push(ConstructView::Node { node }),
            node.token,
            end,
        );
    }
}

proof fn lemma_macro_body_open<'a>(
    s: State<'a>,
    declaration: NodeView<'a>,
    name: Option<NodeView<'a>>,
    open: NodeView<'a>,
    args: Option<Seq<ConstructView<'a>>>,
    close: NodeView<'a>,
    end: State<'a>,
)
    ensures
        is_macro(s.macro_body_open(declaration, name, open, args, close), end),
    decreases s.remaining(), 0nat, 0nat,
{
    reveal_with_fuel(has_places, 2);
    super::lemma_advance_until(s, TokenSet::MacroContextOrBody, Delimiters::Construct);
    let args = DelimitedView { left: open, content: args, right: Some(close) };
    if let (s1, Some(Ok(start))) = s.advance_until(
        TokenSet::MacroContextOrBody,
        Delimiters::Construct,
    ) {
        lemma_macro_rest(s1, start, declaration, name, Some(args), end);
    }
}

proof fn lemma_document_loop<'a>(
    s: State<'a>,
    node: NodeView<'a>,
    ast: Seq<ConstructView<'a>>,
    error_span: Option<(usize, usize)>,
    end: State<'a>,
)
    ensures
        ({
            let (after, all) = s.document_loop(node, ast, error_span);
            origin::leads_to(after, end) && all_placed(ast, Scope::Global, end) ==> all_placed(
                all,
                Scope::Global,
                end,
            )
        }),
    decreases s.remaining(),
{
    report::lemma_step(s, node, ast, Part::Macro, Scope::Global, s);
    lemma_step(s, node, ast, Part::Macro, Scope::Global, end);
    let (s1, more, next) = s.step(node, ast, Part::Macro, Scope::Global);
    match next {
        None => {
            assert(origin::leads_to(s1, s1.fail_if(error_span)));
        },
        Some(next) => if s1.did_advance {
            let s2 = (State { did_advance: false, ..s1 }).fail_if(error_span);
            assert(origin::leads_to(s1, s2));
            if s2.remaining() < s.remaining() {
                lemma_document_loop(s2, next, more, error_span, end);
                report::lemma_document_loop(s2, next, more, error_span, s);
            }
        } else {
            let span = super::scope::widened(error_span, next.token);
            origin::lemma_advance(s1);
            let (s2, following) = s1.accept();
            match following {
                Some(following) => if s2.remaining() < s.remaining() {
                    lemma_document_loop(s2, following, more, span, end);
                    report::lemma_document_loop(s2, following, more, span, s);
                },
                None => {
                    assert(origin::leads_to(s2, s2.fail_if(span)));
                },
            }
        },
    }
}

/// Whatever the tokens of a document are, each construct that has no place where it stands, in
/// the document, in a rule or in a macro, at any depth, is reported with a diagnostic that spans
/// it and names its kind and the place.
pub proof fn lemma_misplaced_constructs_are_reported(tokens: Seq<SpannedToken>, text: Seq<char>)
    ensures
        ({
            let (end, ast) = super::scope::start_of(tokens, text).document();
            all_placed(ast, Scope::Global, end)
        }),
{
    let start = super::scope::start_of(tokens, text);
    let (end, ast) = start.document();
    if let (s, Some(node)) = start.accept() {
        lemma_document_loop(s, node, seq![], None, end);
    }
}

} // verus!
