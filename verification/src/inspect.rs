//! Reading the command name out of a fragment.

use vstd::prelude::*;
use xmltree::Element;
use xmltree::ParseError;

verus! {

/// `xmltree::Element`, one element of a parsed document. Nothing is known
/// here of what it holds: it is handed from one call of `xmltree` to the
/// next. Two elements count as the same where `xmltree` compares them as
/// equal.
#[verifier::external_type_specification]
#[verifier::external_body]
pub struct ExElement(xmltree::Element);

/// `xmltree::ParseError`, the reason why `xmltree` gave no document.
#[verifier::external_type_specification]
#[verifier::external_body]
pub struct ExParseError(xmltree::ParseError);

/// The root element that `xmltree::Element::parse` builds from the bytes of
/// a text, where it builds one.
pub uninterp spec fn parsed_root(text: Seq<char>) -> Option<Element>;

/// The child that `xmltree::Element::get_child` finds in an element under a
/// name, where it finds one: the first child element of that name.
pub uninterp spec fn child_named(parent: Element, name: Seq<char>) -> Option<Element>;

/// The text that `xmltree::Element::get_text` reads in an element, where it
/// reads any: the text and character data right below the element, put
/// together.
pub uninterp spec fn text_inside(element: Element) -> Option<Seq<char>>;

/// Why a fragment gives no command name.
#[derive(Clone, Copy, Debug, PartialEq, Eq, Structural)]
pub enum FragmentError {
    /// The fragment is no well-formed markup.
    ParseError,
    /// The root element has no child element named `command`.
    MissingCommandElement,
    /// The `command` element holds no text.
    EmptyCommandText,
}

/// Calls `xmltree::Element::parse` on the bytes of the text. Believed
/// without proof: what comes back depends on the text alone, the same root
/// element or the same lack of one for the same text. A text without a
/// root element ends in an error inside `xmltree`, not in a panic. `xmltree`
/// builds the elements by recursion, one call deep for each level of
/// nesting; nothing is said here of markup nested deeper than the stack
/// allows.
#[verifier::external_body]
fn parse_root(text: &str) -> (parsed: Result<Element, ParseError>)
    ensures
        match parsed {
            Ok(root) => parsed_root(text@) == Some(root),
            Err(_) => parsed_root(text@) is None,
        },
{
    Element::parse(text.as_bytes())
}

/// Calls `xmltree::Element::get_child` with a name. Believed without proof:
/// what comes back depends on the element and the name alone.
#[verifier::external_body]
fn find_child<'a>(parent: &'a Element, name: &str) -> (child: Option<&'a Element>)
    ensures
        match child {
            Some(found) => child_named(*parent, name@) == Some(*found),
            None => child_named(*parent, name@) is None,
        },
{
    parent.get_child(name)
}

/// Calls `xmltree::Element::get_text` and takes the text as a string of
/// its own. Believed without proof: what comes back depends on the element
/// alone.
#[verifier::external_body]
fn read_text(element: &Element) -> (text: Option<String>)
    ensures
        match text {
            Some(read) => text_inside(*element) == Some(read@),
            None => text_inside(*element) is None,
        },
{
    match element.get_text() {
        Some(text) => Some(text.into_owned()),
        None => None,
    }
}

/// What a root element shows of its command: nothing where it has no
/// child element named `command`; else the text of the first such child,
/// where that child holds any.
pub open spec fn lookup_under(root: Element) -> Option<Option<Seq<char>>> {
    match child_named(root, "command"@) {
        None => None,
        Some(child) => Some(text_inside(child)),
    }
}

/// The command name that a lookup gives, or the reason why it gives none.
pub open spec fn command_from_lookup(lookup: Option<Option<Seq<char>>>) -> Result<
    Seq<char>,
    FragmentError,
> {
    match lookup {
        None => Err(FragmentError::MissingCommandElement),
        Some(None) => Err(FragmentError::EmptyCommandText),
        Some(Some(text)) => Ok(text),
    }
}

/// The command name that a root element gives.
pub open spec fn command_under(root: Element) -> Result<Seq<char>, FragmentError> {
    command_from_lookup(lookup_under(root))
}

/// The command name that a fragment gives.
pub open spec fn command_of(fragment: Seq<char>) -> Result<Seq<char>, FragmentError> {
    match parsed_root(fragment) {
        None => Err(FragmentError::ParseError),
        Some(root) => command_under(root),
    }
}

/// A lookup with its text as a sequence of characters.
pub open spec fn lookup_view(lookup: Option<Option<String>>) -> Option<Option<Seq<char>>> {
    match lookup {
        None => None,
        Some(None) => Some(None),
        Some(Some(text)) => Some(Some(text@)),
    }
}

/// A command name, or the reason why there is none, with the name as a
/// sequence of characters.
pub open spec fn name_view(found: Result<String, FragmentError>) -> Result<
    Seq<char>,
    FragmentError,
> {
    match found {
        Ok(name) => Ok(name@),
        Err(reason) => Err(reason),
    }
}

/// The command name that a lookup gives: the text of the `command` child.
/// Without such a child the command element is missing; with a child that
/// holds no text the command text is empty.
pub fn command_from(lookup: Option<Option<String>>) -> (found: Result<String, FragmentError>)
    ensures
        name_view(found) == command_from_lookup(lookup_view(lookup)),
{
    match lookup {
        None => Err(FragmentError::MissingCommandElement),
        Some(None) => Err(FragmentError::EmptyCommandText),
        Some(Some(text)) => Ok(text),
    }
}

/// The text of the `command` child of a root element.
pub fn command_in(root: &Element) -> (found: Result<String, FragmentError>)
    ensures
        name_view(found) == command_under(*root),
{
    let lookup = match find_child(root, "command") {
        None => None,
        Some(child) => Some(read_text(child)),
    };
    command_from(lookup)
}

/// The command name of a fragment: the text of the `command` child of its
/// root element.
pub fn get_command(fragment: &str) -> (found: Result<String, FragmentError>)
    ensures
        name_view(found) == command_of(fragment@),
        found matches Err(FragmentError::ParseError) <==> parsed_root(fragment@) is None,
{
    match parse_root(fragment) {
        Err(_) => Err(FragmentError::ParseError),
        Ok(root) => command_in(&root),
    }
}

} // verus!
