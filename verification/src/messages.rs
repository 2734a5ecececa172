//! Messages by id, in the language the program speaks.
//!
//! The texts of each language are a Fluent resource (`.ftl`); a message is
//! formatted from the chosen language's resource, else from the English one,
//! else the id itself is shown — a missing id is a bug the tests catch, and
//! showing the id beats showing nothing.

use vstd::prelude::*;

use fluent_bundle::{FluentArgs, FluentBundle, FluentResource, FluentValue};

use crate::i18n::{language_at, language_codes, Language, LANGUAGE_COUNT};
use crate::text::chars_of;

verus! {

/// A value substituted into a message.
#[derive(Debug, Clone)]
pub enum FluentArg {
    Text(String),
    /// A number; Fluent picks plural forms by it.
    Count(u64),
}

/// A substituted value, as text or number.
pub enum FluentArgView {
    Text(Seq<char>),
    Count(u64),
}

/// The views of named arguments.
pub open spec fn arg_views(args: Seq<(String, FluentArg)>) -> Seq<(Seq<char>, FluentArgView)> {
    args.map_values(
        |a: (String, FluentArg)|
            (
                a.0@,
                match a.1 {
                    FluentArg::Text(t) => FluentArgView::Text(t@),
                    FluentArg::Count(n) => FluentArgView::Count(n),
                },
            ),
    )
}

/// What Fluent makes of message `id` of the resource `ftl` for `locale`,
/// with `args` substituted and no isolation marks around them: `None` where
/// the resource holds no such message, or it has no value.
pub uninterp spec fn fluent_format(
    locale: Seq<char>,
    ftl: Seq<char>,
    id: Seq<char>,
    args: Seq<(Seq<char>, FluentArgView)>,
) -> Option<Seq<char>>;

/// A `FluentBundle` for `locale` (parsed as a language tag; the default one
/// where that fails), isolation marks off, holding the resource `ftl` — the
/// entries that parse, where some do not — asked for message `id` and
/// formatted with `args` by `format_pattern`.
#[verifier::external_body]
fn format_message(locale: &str, ftl: &str, id: &str, args: &Vec<(String, FluentArg)>) -> (res: Option<String>)
    ensures
        match res {
            Some(t) => fluent_format(locale@, ftl@, id@, arg_views(args@)) == Some(t@),
            None => fluent_format(locale@, ftl@, id@, arg_views(args@)) is None,
        },
{
    let mut bundle = FluentBundle::new(vec![locale.parse().unwrap_or_default()]);
    bundle.set_use_isolating(false);
    let _ = bundle.add_resource(FluentResource::try_new(ftl.to_string()).unwrap_or_else(|(r, _)| r));
    let mut fargs = FluentArgs::new();
    for (name, value) in args {
        fargs.set(name.clone(), match value {
            FluentArg::Text(t) => FluentValue::from(t.clone()),
            FluentArg::Count(n) => FluentValue::from(*n),
        });
    }
    let pattern = bundle.get_message(id)?.value()?;
    Some(bundle.format_pattern(pattern, Some(&fargs), &mut Vec::new()).into_owned())
}

/// The message in the language with index `i`, if its resource is given and
/// holds the id.
pub open spec fn formatted_in(
    sources: Seq<String>,
    i: int,
    id: Seq<char>,
    args: Seq<(Seq<char>, FluentArgView)>,
) -> Option<Seq<char>> {
    if 0 <= i < sources.len() {
        fluent_format(language_codes()[i], sources[i]@, id, args)
    } else {
        None
    }
}

/// The text of message `id`: in the language with index `i`, else in
/// English, else the id itself.
pub open spec fn message_text(
    sources: Seq<String>,
    i: int,
    id: Seq<char>,
    args: Seq<(Seq<char>, FluentArgView)>,
) -> Seq<char> {
    match formatted_in(sources, i, id, args) {
        Some(t) => t,
        None => match formatted_in(sources, 0, id, args) {
            Some(t) => t,
            None => id,
        },
    }
}

/// The first position from `j` on of the language whose code is `code` in
/// the table; -1 if there is none.
pub open spec fn code_index_from(code: Seq<char>, j: int) -> int
    decreases language_codes().len() - j,
{
    if j < 0 || j >= language_codes().len() {
        -1
    } else if language_codes()[j] == code {
        j
    } else {
        code_index_from(code, j + 1)
    }
}

/// The position of the language whose code is `code` in the table; -1 if
/// there is none.
pub open spec fn index_of_code(code: Seq<char>) -> int {
    code_index_from(code, 0)
}

proof fn lemma_code_index(code: Seq<char>, x: int)
    requires
        0 <= x,
    ensures
        code_index_from(code, x) >= 0 ==> code_index_from(code, x) < language_codes().len()
            && language_codes()[code_index_from(code, x)] == code,
    decreases language_codes().len() - x,
{
    if x < language_codes().len() && language_codes()[x] != code {
        lemma_code_index(code, x + 1);
    }
}

fn same_text(a: &str, b: &str) -> (res: bool)
    ensures
        res == (a@ == b@),
{
    let x = chars_of(a);
    let y = chars_of(b);
    if x.len() != y.len() {
        return false;
    }
    for k in 0..x.len()
        invariant
            x@ == a@,
            y@ == b@,
            x@.len() == y@.len(),
            forall|j: int| 0 <= j < k ==> x@[j] == y@[j],
    {
        if x[k] != y[k] {
            return false;
        }
    }
    assert(x@ =~= y@);
    true
}

/// Formats message `id` in `language`, leaving the rest of the program's
/// language alone: `sources[i]` is the Fluent resource of the language with
/// index `i` in the table (English first). Falls back to English, then to
/// the id.
pub fn message_in(sources: &Vec<String>, language: Language, id: &str, args: &Vec<(String, FluentArg)>) -> (res: String)
    ensures
        res@ == message_text(sources@, index_of_code(language.code@), id@, arg_views(args@)),
{
    let mut found: Option<usize> = None;
    let mut i: usize = 0;
    while i < LANGUAGE_COUNT
        invariant
            i <= LANGUAGE_COUNT,
            LANGUAGE_COUNT == language_codes().len(),
            match found {
                Some(j) => j < LANGUAGE_COUNT && index_of_code(language.code@) == j,
                None => index_of_code(language.code@) == code_index_from(language.code@, i as int),
            },
        decreases LANGUAGE_COUNT - i,
    {
        if found.is_none() {
            let l = language_at(i);
            if same_text(l.code, language.code) {
                found = Some(i);
            }
        }
        i = i + 1;
    }
    proof {
        lemma_code_index(language.code@, 0);
    }
    let own = match found {
        Some(j) if j < sources.len() => format_message(language.code, sources[j].as_str(), id, args),
        _ => None,
    };
    match own {
        Some(t) => t,
        None => {
            let english = if sources.len() > 0 {
                format_message("en", sources[0].as_str(), id, args)
            } else {
                None
            };
            match english {
                Some(t) => t,
                None => id.to_string(),
            }
        },
    }
}

} // verus!
