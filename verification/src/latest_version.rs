//! Extraction of the newest release tag from the project's release page: the
//! text between the release-tag path prefix and the quote that closes it.

use vstd::prelude::*;
use vstd::string::*;

use crate::filter_info::{chars_of, find_sub, first_occurrence};

verus! {

/// The path prefix a release tag follows on the release page.
pub open spec fn spec_tag_prefix() -> Seq<char> {
    "kuone314/NekoFiler/releases/tag/"@
}

/// The version text the release page names: what stands between the first
/// release-tag path prefix and the next quote.
pub open spec fn spec_latest_version(html: Seq<char>) -> Option<Seq<char>> {
    match first_occurrence(html, spec_tag_prefix()) {
        None => None,
        Some(i) => {
            let tag_start = i + spec_tag_prefix().len();
            match first_occurrence(html.skip(tag_start), seq!['"']) {
                None => None,
                Some(j) => Some(html.subrange(tag_start, tag_start + j)),
            }
        },
    }
}

/// Read the newest release tag out of the release page's text.
pub fn get_latest_version(html: &String) -> (r: Option<String>)
    ensures
        crate::file_list::opt_str_view(r) == spec_latest_version(html@),
{
    let html_chars = chars_of(html.as_str());
    let key = chars_of("kuone314/NekoFiler/releases/tag/");
    let html_len = html_chars.len();
    proof {
        assert(key@ =~= key@.subrange(0, key@.len() as int));
        assert(html_chars@.skip(0) =~= html_chars@);
    }
    let key_len = key.len();
    let found = match find_sub(&html_chars, 0, &key, 0, key_len) {
        None => {
            return None;
        },
        Some(i) => i,
    };
    let tag_start = found + key_len;
    let quote = chars_of("\"");
    proof {
        reveal_strlit("\"");
        assert(quote@ =~= seq!['"']);
        assert(quote@ =~= quote@.subrange(0, 1));
    }
    let end = match find_sub(&html_chars, tag_start, &quote, 0, 1) {
        None => {
            return None;
        },
        Some(j) => j,
    };
    let version = html.as_str().substring_char(tag_start, end).to_owned();
    proof {
        assert(version@ =~= html@.subrange(tag_start as int, tag_start + (end - tag_start)));
    }
    Some(version)
}

} // verus!
