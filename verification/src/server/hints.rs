//! What is shown on the tokens of a document.

use super::document;
use super::document::{ResolvedTypeView, ResolvedTypesView};
use crate::autocomplete::tokens;
use crate::parser::construct::{ConstructView, NodeView};
use crate::parser::scanner;
use crate::parser::token::Token;
use crate::typechecker::definitions::DefinitionView;
use crate::typechecker::rules;
use vstd::prelude::*;

verus! {

/// Whether a token is a reference to a token of style sheets, of the given name.
pub open spec fn refers_to(token: Token, name: Seq<char>, is_static: bool) -> bool {
    match token {
        Token::TokenIdentifier(written) => written@ == name && !is_static,
        Token::StaticTokenIdentifier(written) => written@ == name && is_static,
        _ => false,
    }
}

/// The index of the first type that is known of a token.
pub open spec fn is_first_type(
    types: ResolvedTypesView,
    name: Seq<char>,
    is_static: bool,
    i: int,
) -> bool {
    &&& 0 <= i < types.tokens.len()
    &&& types.tokens[i].0 == name && types.tokens[i].1 == is_static
    &&& forall|j: int|
        0 <= j < i ==> (#[trigger] types.tokens[j]).0 != name || types.tokens[j].1 != is_static
}

/// Whether a text is what is shown as the type of a token: the first type that is known of
/// it, where the item of an unnamed enum bears the name of the token.
pub open spec fn is_shown_type(
    types: ResolvedTypesView,
    name: Seq<char>,
    is_static: bool,
    shown: Seq<char>,
) -> bool {
    &&& forall|i: int| #[trigger]
        is_first_type(types, name, is_static, i) ==> shown == (match types.tokens[i].2 {
            ResolvedTypeView::EnumShorthand => "Enum."@ + name,
            ResolvedTypeView::EnumItem(enum_name) => "Enum."@ + enum_name,
            ResolvedTypeView::Other(text) => text,
        })
    &&& (forall|i: int|
        0 <= i < types.tokens.len() ==> (#[trigger] types.tokens[i]).0 != name
            || types.tokens[i].1 != is_static) ==> shown == "unknown"@
}

proof fn lemma_token_type(
    tokens: Seq<(Seq<char>, bool, ResolvedTypeView)>,
    name: Seq<char>,
    is_static: bool,
    i: int,
)
    requires
        0 <= i <= tokens.len(),
        forall|j: int|
            0 <= j < i ==> (#[trigger] tokens[j]).0 != name || tokens[j].1 != is_static,
        i < tokens.len() ==> tokens[i].0 == name && tokens[i].1 == is_static,
    ensures
        document::token_type(tokens, name, is_static) == (if i < tokens.len() {
            Some(tokens[i].2)
        } else {
            None
        }),
    decreases i,
{
    if i > 0 {
        let rest = tokens.drop_first();
        assert(tokens[0].0 != name || tokens[0].1 != is_static);
        assert forall|j: int| 0 <= j < i - 1 implies (#[trigger] rest[j]).0 != name || rest[j].1
            != is_static by {
            assert(tokens[j + 1].0 != name || tokens[j + 1].1 != is_static);
        }
        lemma_token_type(rest, name, is_static, i - 1);
    }
}

proof fn lemma_shown_type(types: ResolvedTypesView, name: Seq<char>, is_static: bool)
    ensures
        is_shown_type(
            types,
            name,
            is_static,
            match document::token_type(types.tokens, name, is_static) {
                Some(resolved) => document::type_text(resolved, name),
                None => "unknown"@,
            },
        ),
{
    assert forall|i: int| #[trigger] is_first_type(types, name, is_static, i) implies (
    match document::token_type(types.tokens, name, is_static) {
        Some(resolved) => document::type_text(resolved, name),
        None => "unknown"@,
    }) == (match types.tokens[i].2 {
        ResolvedTypeView::EnumShorthand => "Enum."@ + name,
        ResolvedTypeView::EnumItem(enum_name) => "Enum."@ + enum_name,
        ResolvedTypeView::Other(text) => text,
    }) by {
        lemma_token_type(types.tokens, name, is_static, i);
    }
    if forall|i: int|
        0 <= i < types.tokens.len() ==> (#[trigger] types.tokens[i]).0 != name
            || types.tokens[i].1 != is_static {
        lemma_token_type(types.tokens, name, is_static, types.tokens.len() as int);
    }
}

/// Whether what is shown is a block of code with a text and its type.
pub open spec fn shows(
    shown: Option<Seq<char>>,
    written: Seq<char>,
    types: ResolvedTypesView,
    name: Seq<char>,
    is_static: bool,
) -> bool {
    exists|of: Seq<char>| #[trigger]
        is_shown_type(types, name, is_static, of) && shown == Some(
            "```luau\n"@ + (written + ": "@ + of) + "\n```"@,
        )
}

proof fn lemma_shown_at(
    map: Map<usize, DefinitionView>,
    byte: usize,
    types: ResolvedTypesView,
    written: Seq<char>,
    name: Seq<char>,
    is_static: bool,
)
    requires
        map.dom().contains(byte),
        map[byte] == (DefinitionView::Token { name, is_static }),
        written == (if is_static {
            "$!"@
        } else {
            "$"@
        }) + name,
    ensures
        shows(document::hover_at(map, byte, types), written, types, name, is_static),
{
    lemma_shown_type(types, name, is_static);
    let of = match document::token_type(types.tokens, name, is_static) {
        Some(resolved) => document::type_text(resolved, name),
        None => "unknown"@,
    };
    assert(is_shown_type(types, name, is_static, of));
    assert(document::hover_at(map, byte, types) == Some(
        "```luau\n"@ + (written + ": "@ + of) + "\n```"@,
    ));
}

/// Where a token is referred to in a document, what is shown is the text of the document
/// itself, from the first character of the reference to the last, and behind it the type of
/// the token of that name, static where the reference is.
pub proof fn lemma_reference_shows_itself(
    source: Seq<char>,
    k: int,
    node: NodeView,
    before: Map<usize, DefinitionView>,
    types: ResolvedTypesView,
    byte: usize,
    name: Seq<char>,
    is_static: bool,
)
    requires
        0 <= k < scanner::lexemes(source, 0).len(),
        scanner::is_token_of(node.token, scanner::lexemes(source, 0)[k], source),
        refers_to(node.token.1, name, is_static),
        node.token.0 <= byte <= node.token.2,
    ensures
        ({
            let lexeme = scanner::lexemes(source, 0)[k];
            shows(
                document::hover_at(
                    tokens::walked(ConstructView::Node { node }, before),
                    byte,
                    types,
                ),
                source.subrange(lexeme.start, lexeme.end),
                types,
                name,
                is_static,
            )
        }),
{
    scanner::lemma_token_is_written(source, k);
    let lexeme = scanner::lexemes(source, 0)[k];
    reveal_strlit("");
    let sigil = if is_static {
        "$!"@
    } else {
        "$"@
    };
    assert(sigil + lexeme.name + ""@ =~= sigil + lexeme.name);
    let map = tokens::walked(ConstructView::Node { node }, before);
    lemma_shown_at(
        map,
        byte,
        types,
        source.subrange(lexeme.start, lexeme.end),
        name,
        is_static,
    );
}

/// Where a token is declared with a value, the same is shown.
pub proof fn lemma_declaration_shows_itself(
    source: Seq<char>,
    k: int,
    left: NodeView,
    right: Option<Box<ConstructView>>,
    before: Map<usize, DefinitionView>,
    types: ResolvedTypesView,
    byte: usize,
    name: Seq<char>,
    is_static: bool,
)
    requires
        0 <= k < scanner::lexemes(source, 0).len(),
        scanner::is_token_of(left.token, scanner::lexemes(source, 0)[k], source),
        refers_to(left.token.1, name, is_static),
        right is Some,
        left.token.0 <= byte <= left.token.2,
    ensures
        ({
            let lexeme = scanner::lexemes(source, 0)[k];
            shows(
                document::hover_at(rules::with_declared_token(left, right, before), byte, types),
                source.subrange(lexeme.start, lexeme.end),
                types,
                name,
                is_static,
            )
        }),
{
    scanner::lemma_token_is_written(source, k);
    let lexeme = scanner::lexemes(source, 0)[k];
    reveal_strlit("");
    let sigil = if is_static {
        "$!"@
    } else {
        "$"@
    };
    assert(sigil + lexeme.name + ""@ =~= sigil + lexeme.name);
    lemma_shown_at(
        rules::with_declared_token(left, right, before),
        byte,
        types,
        source.subrange(lexeme.start, lexeme.end),
        name,
        is_static,
    );
}

} // verus!
