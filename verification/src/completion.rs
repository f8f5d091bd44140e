//! The items that an editor offers to complete a text with.

use vstd::prelude::*;

verus! {

#[derive(Debug, Clone, Copy, PartialEq, Eq, Structural)]
pub enum CompletionItemKind {
    Color,
    Enum,
    EnumMember,
    Function,
    Keyword,
    Property,
}

#[derive(Debug, Clone, Copy, PartialEq, Eq, Structural)]
pub enum InsertTextFormat {
    PlainText,
    Snippet,
}

/// A command that the editor runs after it has inserted an item.
#[derive(Debug)]
pub struct Command {
    pub title: String,
    pub command: String,
}

#[derive(Debug)]
pub struct CompletionItem {
    pub label: String,
    pub kind: Option<CompletionItemKind>,
    pub detail: Option<String>,
    /// What is inserted; the label where there is none.
    pub insert_text: Option<String>,
    pub insert_text_format: Option<InsertTextFormat>,
    pub command: Option<Command>,
}

/// What a [`Command`] holds.
pub struct CommandView {
    pub title: Seq<char>,
    pub command: Seq<char>,
}

/// What a [`CompletionItem`] holds.
pub struct CompletionItemView {
    pub label: Seq<char>,
    pub kind: Option<CompletionItemKind>,
    pub detail: Option<Seq<char>>,
    pub insert_text: Option<Seq<char>>,
    pub insert_text_format: Option<InsertTextFormat>,
    pub command: Option<CommandView>,
}

impl DeepView for Command {
    type V = CommandView;

    open spec fn deep_view(&self) -> CommandView {
        CommandView { title: self.title@, command: self.command@ }
    }
}

impl DeepView for CompletionItem {
    type V = CompletionItemView;

    open spec fn deep_view(&self) -> CompletionItemView {
        CompletionItemView {
            label: self.label@,
            kind: self.kind,
            detail: self.detail.deep_view(),
            insert_text: self.insert_text.deep_view(),
            insert_text_format: self.insert_text_format,
            command: self.command.deep_view(),
        }
    }
}

/// An item with nothing but a label and a kind.
pub open spec fn plain_item(label: Seq<char>, kind: CompletionItemKind) -> CompletionItemView {
    CompletionItemView {
        label,
        kind: Some(kind),
        detail: None,
        insert_text: None,
        insert_text_format: None,
        command: None,
    }
}

impl CompletionItem {
    /// An item with nothing but a label and a kind.
    pub fn plain(label: &str, kind: CompletionItemKind) -> (r: Self)
        ensures
            r.deep_view() == plain_item(label@, kind),
    {
        CompletionItem {
            label: label.to_owned(),
            kind: Some(kind),
            detail: None,
            insert_text: None,
            insert_text_format: None,
            command: None,
        }
    }
}

/// Adding an item adds what it holds.
pub proof fn lemma_push_view<T: DeepView>(before: Vec<T>, item: T, after: Vec<T>)
    requires
        after@ == before@.push(item),
    ensures
        after.deep_view() == before.deep_view().push(item.deep_view()),
{
    assert(after.deep_view() =~= before.deep_view().push(item.deep_view()));
}

} // verus!
