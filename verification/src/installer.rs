//! The rules of the installer: its menu, which cached values and files
//! belong to the handler, and how its texts are put together.

use vstd::prelude::*;
use vstd::string::StringExecFns;
use crate::text::{
    chars_of, is_blank, is_blank_char, starts_with, trim_char, trim_char_chars,
};

verus! {

/// What the installer can be asked to do.
#[derive(Clone, Copy, Debug, PartialEq, Eq, Structural)]
pub enum Action {
    Install,
    Uninstall,
    RestartExplorer,
    ClearThumbCache,
    ToggleLogging,
    Exit,
}

/// The actions of the menu in their order.
pub open spec fn menu_actions() -> Seq<Action> {
    seq![
        Action::Install,
        Action::Uninstall,
        Action::RestartExplorer,
        Action::ClearThumbCache,
        Action::ToggleLogging,
        Action::Exit,
    ]
}

/// The label of an action in the menu. The label of the logging switch
/// says what choosing it will do.
pub open spec fn label_of(action: Action, logging_enabled: bool) -> Seq<char> {
    match action {
        Action::Install => "Install (current user)"@,
        Action::Uninstall => "Uninstall (current user)"@,
        Action::RestartExplorer => "Restart Explorer"@,
        Action::ClearThumbCache => "Clear thumbnail cache"@,
        Action::ToggleLogging => if logging_enabled {
            "Disable log"@
        } else {
            "Enable log"@
        },
        Action::Exit => "Exit"@,
    }
}

/// The label of an action in the menu.
pub fn action_label(action: Action, logging_enabled: bool) -> (label: &'static str)
    ensures
        label@ == label_of(action, logging_enabled),
{
    match action {
        Action::Install => "Install (current user)",
        Action::Uninstall => "Uninstall (current user)",
        Action::RestartExplorer => "Restart Explorer",
        Action::ClearThumbCache => "Clear thumbnail cache",
        Action::ToggleLogging => if logging_enabled {
            "Disable log"
        } else {
            "Enable log"
        },
        Action::Exit => "Exit",
    }
}

/// The menu: each action with its label, in the order of `menu_actions`.
pub fn menu(logging_enabled: bool) -> (items: Vec<(Action, &'static str)>)
    ensures
        items@.len() == menu_actions().len(),
        forall|i: int|
            0 <= i < items@.len() ==> (#[trigger] items@[i]).0 == menu_actions()[i] && items@[i].1@
                == label_of(menu_actions()[i], logging_enabled),
{
    let mut items: Vec<(Action, &'static str)> = Vec::new();
    items.push((Action::Install, action_label(Action::Install, logging_enabled)));
    items.push((Action::Uninstall, action_label(Action::Uninstall, logging_enabled)));
    items.push((Action::RestartExplorer, action_label(Action::RestartExplorer, logging_enabled)));
    items.push((Action::ClearThumbCache, action_label(Action::ClearThumbCache, logging_enabled)));
    items.push((Action::ToggleLogging, action_label(Action::ToggleLogging, logging_enabled)));
    items.push((Action::Exit, action_label(Action::Exit, logging_enabled)));
    items
}

/// Whether the menu loop ends with this action.
pub fn ends_session(action: Action) -> (ends: bool)
    ensures
        ends == (action == Action::Exit),
{
    match action {
        Action::Exit => true,
        _ => false,
    }
}

/// Whether the menu loop itself says that an action was completed.
/// Installing and uninstalling report for themselves.
pub fn announces_success(action: Action) -> (announces: bool)
    ensures
        announces == (action != Action::Install && action != Action::Uninstall),
{
    match action {
        Action::Install => false,
        Action::Uninstall => false,
        _ => true,
    }
}

/// An ASCII lower-case letter becomes its upper-case letter; every other
/// character stays as it is.
pub open spec fn upper_char(c: char) -> char {
    if 'a' <= c && c <= 'z' {
        ((c as u8 - 32) as u8) as char
    } else {
        c
    }
}

/// A string with its ASCII letters in upper case.
pub open spec fn upper(s: Seq<char>) -> Seq<char> {
    Seq::new(s.len(), |i: int| upper_char(s[i]))
}

/// `needle` stands in `text` at index `at`.
pub open spec fn occurs_at(text: Seq<char>, needle: Seq<char>, at: int) -> bool {
    0 <= at && at + needle.len() <= text.len() && text.subrange(at, at + needle.len()) == needle
}

/// `needle` stands somewhere in `text`.
pub open spec fn contains(text: Seq<char>, needle: Seq<char>) -> bool {
    exists|at: int| occurs_at(text, needle, at)
}

/// A class identifier without its braces: without `{` at its ends, then
/// without `}` at its ends.
pub open spec fn without_braces(clsid: Seq<char>) -> Seq<char> {
    trim_char(trim_char(clsid, '{'), '}')
}

/// Whether a value of the shell's cache of extensions belongs to the class
/// `clsid`: its name holds the identifier, with or without braces, in
/// whatever case its letters are.
pub open spec fn names_class(value_name: Seq<char>, clsid: Seq<char>) -> bool {
    contains(upper(value_name), upper(clsid)) || contains(
        upper(value_name),
        without_braces(upper(clsid)),
    )
}

/// The prefix of the names of the shell's thumbnail cache files.
pub const THUMBCACHE_PREFIX: &'static str = "thumbcache_";

/// The characters of `upper(s)`.
pub fn upper_chars(s: &[char]) -> (r: Vec<char>)
    ensures
        r@ == upper(s@),
{
    let mut r: Vec<char> = Vec::new();
    let mut i: usize = 0;
    while i < s.len()
        invariant
            i <= s.len(),
            r@ == upper(s@).take(i as int),
        decreases s.len() - i,
    {
        let c = s[i];
        r.push(if 'a' <= c && c <= 'z' { ((c as u8) - 32u8) as char } else { c });
        i += 1;
        assert(r@ =~= upper(s@).take(i as int));
    }
    assert(upper(s@).take(i as int) =~= upper(s@));
    r
}

/// Whether `needle` stands somewhere in `text`.
pub fn chars_contain(text: &[char], needle: &[char]) -> (found: bool)
    ensures
        found == contains(text@, needle@),
{
    if needle.len() > text.len() {
        return false;
    }
    let last = text.len() - needle.len();
    let mut at: usize = 0;
    while at <= last
        invariant
            at <= last + 1,
            last == text.len() - needle.len(),
            needle.len() <= text.len(),
            forall|k: int| 0 <= k < at ==> !occurs_at(text@, needle@, k),
        decreases last + 1 - at,
    {
        let mut i: usize = 0;
        while i < needle.len() && text[at + i] == needle[i]
            invariant
                i <= needle.len(),
                at + needle.len() <= text.len(),
                forall|j: int| 0 <= j < i ==> text@[at + j] == #[trigger] needle@[j],
            decreases needle.len() - i,
        {
            i += 1;
        }
        if i == needle.len() {
            assert(text@.subrange(at as int, at + needle.len()) =~= needle@);
            assert(occurs_at(text@, needle@, at as int));
            return true;
        }
        assert(!occurs_at(text@, needle@, at as int)) by {
            if occurs_at(text@, needle@, at as int) {
                assert(text@.subrange(at as int, at + needle.len())[i as int] == needle@[i as int]);
            }
        }
        at += 1;
    }
    false
}

/// Whether a value of the shell's cache of extensions belongs to the class
/// with the identifier `clsid`.
pub fn cached_value_names_class(value_name: &str, clsid: &str) -> (matches: bool)
    ensures
        matches == names_class(value_name@, clsid@),
{
    let name = upper_chars(chars_of(value_name).as_slice());
    let braced = upper_chars(chars_of(clsid).as_slice());
    if chars_contain(name.as_slice(), braced.as_slice()) {
        return true;
    }
    let inner = trim_char_chars(braced.as_slice(), '{');
    let bare = trim_char_chars(inner.as_slice(), '}');
    chars_contain(name.as_slice(), bare.as_slice())
}

/// Whether a file of the shell's cache directory is a thumbnail cache file:
/// its name begins with `THUMBCACHE_PREFIX`, letter for letter.
pub fn is_thumbcache_file(name: &str) -> (is_cache: bool)
    ensures
        is_cache == starts_with(name@, THUMBCACHE_PREFIX@),
{
    let text = chars_of(name);
    let prefix = chars_of(THUMBCACHE_PREFIX);
    assert(prefix@ == THUMBCACHE_PREFIX@);
    if prefix.len() > text.len() {
        return false;
    }
    let mut i: usize = 0;
    while i < prefix.len()
        invariant
            i <= prefix.len() <= text.len(),
            text@ == name@,
            prefix@ == THUMBCACHE_PREFIX@,
            forall|j: int| 0 <= j < i ==> text@[j] == #[trigger] prefix@[j],
        decreases prefix.len() - i,
    {
        if text[i] != prefix[i] {
            assert(text@.take(prefix.len() as int)[i as int] == text@[i as int]);
            assert(text@.take(prefix.len() as int) != prefix@);
            return false;
        }
        i += 1;
    }
    assert(text@.take(prefix.len() as int) =~= prefix@);
    true
}

/// The path of the key `suffix` below the registry key `path`: the two with
/// a `\` between them, or `path` itself where `suffix` is empty.
pub open spec fn sub_key_spec(path: Seq<char>, suffix: Seq<char>) -> Seq<char> {
    if suffix.len() == 0 {
        path
    } else {
        path + seq!['\\'] + suffix
    }
}

/// The path of the key `suffix` below the registry key `path`.
pub fn sub_key_path(path: &str, suffix: &str) -> (full: String)
    ensures
        full@ == sub_key_spec(path@, suffix@),
{
    let mut full = String::from_str(path);
    if !suffix.is_empty() {
        full.push('\\');
        full.append(suffix);
    }
    full
}

/// The name under which a registry value is shown: the unnamed value of a
/// key is shown as `(Default)`.
pub fn value_display_name(name: &str) -> (shown: &str)
    ensures
        shown@ == if name@.len() == 0 {
            "(Default)"@
        } else {
            name@
        },
{
    if name.is_empty() {
        "(Default)"
    } else {
        name
    }
}

/// The number of lines of `text` that hold more than blanks. Lines end at
/// a line feed.
pub open spec fn nonblank_lines(text: Seq<char>) -> nat
    decreases text.len(),
{
    if text.len() == 0 {
        0
    } else {
        let before = nonblank_lines(text.drop_last());
        if !is_blank_char(text.last()) && line_is_blank_so_far(text.drop_last()) {
            before + 1
        } else {
            before
        }
    }
}

/// Whether the last line of `text`, as far as it goes, holds only blanks.
pub open spec fn line_is_blank_so_far(text: Seq<char>) -> bool
    decreases text.len(),
{
    if text.len() == 0 || text.last() == '\n' {
        true
    } else {
        is_blank_char(text.last()) && line_is_blank_so_far(text.drop_last())
    }
}

/// Counts the lines of `text` that hold more than blanks: the rows of a
/// list that a tool has printed.
pub fn count_nonblank_lines(text: &str) -> (count: usize)
    ensures
        count == nonblank_lines(text@),
{
    let chars = chars_of(text);
    let mut count: usize = 0;
    let mut blank = true;
    let mut i: usize = 0;
    while i < chars.len()
        invariant
            i <= chars.len(),
            count <= i,
            count == nonblank_lines(chars@.take(i as int)),
            blank == line_is_blank_so_far(chars@.take(i as int)),
        decreases chars.len() - i,
    {
        let c = chars[i];
        assert(chars@.take(i + 1).drop_last() =~= chars@.take(i as int));
        assert(chars@.take(i + 1).last() == c);
        if c == '\n' {
            blank = true;
        } else if !is_blank(c) {
            if blank {
                count += 1;
            }
            blank = false;
        }
        i += 1;
    }
    assert(chars@.take(i as int) =~= chars@);
    count
}

} // verus!
