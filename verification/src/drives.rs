//! Parsing of the platform's drive-strings buffer: a NUL-separated byte list
//! of drive roots, each decoded and shortened from "X:\" form to "X:".

use vstd::prelude::*;
use vstd::string::*;

verus! {

/// What UTF-8 decoding of a byte sequence yields, when the bytes are valid.
pub uninterp spec fn utf8_decode(bytes: Seq<u8>) -> Option<Seq<char>>;

/// Every byte is plain ASCII.
pub open spec fn all_ascii(bytes: Seq<u8>) -> bool {
    forall|i: int| 0 <= i < bytes.len() ==> bytes[i] < 0x80
}

/// Relies on String::from_utf8: the characters the bytes decode to, `None`
/// when they are not valid UTF-8; bytes below 0x80 decode to themselves, and
/// a non-empty byte sequence never decodes to an empty string.
#[verifier::external_body]
fn bytes_to_string(bytes: Vec<u8>) -> (r: Option<String>)
    ensures
        crate::file_list::opt_str_view(r) == utf8_decode(bytes@),
        all_ascii(bytes@) ==> crate::file_list::opt_str_view(r) == Some(
            bytes@.map_values(|b: u8| b as char),
        ),
        r matches Some(s) ==> (bytes@.len() > 0 ==> s@.len() > 0),
{
    String::from_utf8(bytes).ok()
}

/// Position of the first NUL byte, or the length when there is none.
pub open spec fn first_nul(bytes: Seq<u8>) -> int
    decreases bytes.len(),
{
    if bytes.len() == 0 {
        0
    } else if bytes[0] == 0 {
        0
    } else {
        1 + first_nul(bytes.skip(1))
    }
}

proof fn lemma_first_nul(bytes: Seq<u8>)
    ensures
        0 <= first_nul(bytes) <= bytes.len(),
        first_nul(bytes) < bytes.len() ==> bytes[first_nul(bytes)] == 0,
        forall|j: int| 0 <= j < first_nul(bytes) ==> bytes[j] != 0,
    decreases bytes.len(),
{
    if bytes.len() > 0 && bytes[0] != 0 {
        lemma_first_nul(bytes.skip(1));
        assert forall|j: int| 0 <= j < first_nul(bytes) implies bytes[j] != 0 by {
            if j > 0 {
                assert(bytes.skip(1)[j - 1] == bytes[j]);
            }
        }
        if first_nul(bytes) < bytes.len() {
            assert(bytes.skip(1)[first_nul(bytes.skip(1))] == bytes[first_nul(bytes)]);
        }
    }
}

/// Shortening keeps a non-empty string non-empty.
proof fn lemma_replace_colon_nonempty(s: Seq<char>)
    requires
        s.len() > 0,
    ensures
        spec_replace_colon(s).len() > 0,
{
}

/// A drive string with every ":\" shortened to ":".
pub open spec fn spec_replace_colon(s: Seq<char>) -> Seq<char>
    decreases s.len(),
{
    if s.len() >= 2 && s[0] == ':' && s[1] == '\\' {
        seq![':'] + spec_replace_colon(s.skip(2))
    } else if s.len() >= 1 {
        seq![s[0]] + spec_replace_colon(s.skip(1))
    } else {
        Seq::empty()
    }
}

/// The drive names a raw buffer holds: its non-empty NUL-separated groups
/// that decode as UTF-8, each shortened.
pub open spec fn spec_drive_names(bytes: Seq<u8>) -> Seq<Seq<char>>
    decreases bytes.len(),
{
    if bytes.len() == 0 {
        Seq::empty()
    } else {
        let cut = first_nul(bytes);
        if 0 <= cut <= bytes.len() {
            let group = bytes.take(cut);
            let head = if group.len() > 0 {
                match utf8_decode(group) {
                    Some(cs) => seq![spec_replace_colon(cs)],
                    None => Seq::<Seq<char>>::empty(),
                }
            } else {
                Seq::<Seq<char>>::empty()
            };
            if cut < bytes.len() {
                head + spec_drive_names(bytes.skip(cut + 1))
            } else {
                head
            }
        } else {
            Seq::empty()
        }
    }
}

/// The views of a vector of strings.
pub open spec fn strings_view(v: Seq<String>) -> Seq<Seq<char>> {
    v.map_values(|s: String| s@)
}

/// Shorten every ":\" of a drive string to ":".
fn replace_colon_backslash(s: &String) -> (r: String)
    ensures
        r@ == spec_replace_colon(s@),
{
    let ghost sv = s@;
    let st = s.as_str();
    let n = st.unicode_len();
    let mut out = String::new();
    let mut i: usize = 0;
    proof {
        assert(sv.skip(0) =~= sv);
        assert(out@ + spec_replace_colon(sv) =~= spec_replace_colon(sv));
    }
    #[verifier::loop_isolation(false)]
    while i < n
        invariant
            i <= n == sv.len(),
            spec_replace_colon(sv) == out@ + spec_replace_colon(sv.skip(i as int)),
        decreases n - i,
    {
        proof {
            assert(sv.skip(i as int)[0] == sv[i as int]);
        }
        let ghost before = out@;
        let piece = st.substring_char(i, i + 1);
        proof {
            assert(piece@ =~= seq![sv[i as int]]);
        }
        out.append(piece);
        if i + 1 < n && st.get_char(i) == ':' && st.get_char(i + 1) == '\\' {
            proof {
                assert(sv.skip(i as int)[1] == sv[i + 1]);
                assert(sv.skip(i as int).skip(2) =~= sv.skip(i + 2));
                assert(out@ =~= before + seq![':']);
                assert(before + (seq![':'] + spec_replace_colon(sv.skip(i + 2))) =~= out@
                    + spec_replace_colon(sv.skip(i + 2)));
            }
            i = i + 2;
        } else {
            proof {
                if sv.skip(i as int).len() >= 2 && sv[i as int] == ':' && sv.skip(i as int)[1]
                    == '\\' {
                    assert(sv[i + 1] == '\\');
                    assert(false);
                }
                assert(sv.skip(i as int).skip(1) =~= sv.skip(i + 1));
                assert(out@ =~= before + seq![sv[i as int]]);
                assert(before + (seq![sv[i as int]] + spec_replace_colon(sv.skip(i + 1))) =~= out@
                    + spec_replace_colon(sv.skip(i + 1)));
            }
            i = i + 1;
        }
    }
    proof {
        assert(sv.skip(n as int) =~= Seq::<char>::empty());
        assert(out@ + Seq::<char>::empty() =~= out@);
    }
    out
}

/// Parse the raw drive-strings buffer: split at NUL bytes, decode each
/// non-empty group, and shorten each drive root.
pub fn drive_list(raw: Vec<u8>) -> (r: Vec<String>)
    ensures
        strings_view(r@) == spec_drive_names(raw@),
        forall|k: int| 0 <= k < r@.len() ==> (#[trigger] strings_view(r@)[k]).len() > 0,
{
    let ghost rv = raw@;
    let mut out: Vec<String> = Vec::new();
    let mut pos: usize = 0;
    let len = raw.len();
    proof {
        assert(rv.skip(0) =~= rv);
        assert(strings_view(out@) + spec_drive_names(rv) =~= spec_drive_names(rv));
    }
    #[verifier::loop_isolation(false)]
    while pos < len
        invariant
            pos <= len == rv.len(),
            spec_drive_names(rv) == strings_view(out@) + spec_drive_names(rv.skip(pos as int)),
            forall|k: int| 0 <= k < out@.len() ==> (#[trigger] strings_view(out@)[k]).len() > 0,
        decreases len - pos,
    {
        let ghost rest = rv.skip(pos as int);
        proof {
            lemma_first_nul(rest);
        }
        // Find the end of the group.
        let mut cut: usize = pos;
        #[verifier::loop_isolation(false)]
        while cut < len && raw[cut] != 0
            invariant
                pos <= cut <= len,
                forall|j: int| 0 <= j < cut - pos ==> rest[j] != 0,
            decreases len - cut,
        {
            proof {
                assert(rest[cut - pos] == rv[cut as int]);
            }
            cut = cut + 1;
        }
        proof {
            if cut < len {
                assert(rest[cut - pos] == rv[cut as int]);
                assert(rest[cut - pos] == 0);
            }
            assert(first_nul(rest) == cut - pos) by {
                if first_nul(rest) < cut - pos {
                    assert(rest[first_nul(rest)] == 0);
                } else if first_nul(rest) > cut - pos {
                    assert(cut - pos < rest.len());
                }
            }
        }
        // Copy the group out.
        let mut group: Vec<u8> = Vec::new();
        let mut g = pos;
        #[verifier::loop_isolation(false)]
        while g < cut
            invariant
                pos <= g <= cut,
                group@ =~= rv.subrange(pos as int, g as int),
            decreases cut - g,
        {
            group.push(raw[g]);
            proof {
                assert(group@ =~= rv.subrange(pos as int, g + 1));
            }
            g = g + 1;
        }
        proof {
            assert(group@ =~= rest.take(cut - pos));
        }
        let ghost before = strings_view(out@);
        if group.len() > 0 {
            let ghost groupv = group@;
            match bytes_to_string(group) {
                None => {
                    proof {
                        assert(utf8_decode(rest.take(cut - pos)) is None);
                    }
                },
                Some(s) => {
                    proof {
                        lemma_replace_colon_nonempty(s@);
                    }
                    let shortened = replace_colon_backslash(&s);
                    proof {
                        assert(utf8_decode(rest.take(cut - pos)) == Some(s@));
                        assert(shortened@ == spec_replace_colon(s@));
                    }
                    out.push(shortened);
                    proof {
                        assert(strings_view(out@) =~= before.push(out@.last()@));
                    }
                },
            }
        }
        proof {
            let head = if rest.take(cut - pos).len() > 0 {
                match utf8_decode(rest.take(cut - pos)) {
                    Some(cs) => seq![spec_replace_colon(cs)],
                    None => Seq::<Seq<char>>::empty(),
                }
            } else {
                Seq::<Seq<char>>::empty()
            };
            assert(strings_view(out@) =~= before + head);
            if cut < len {
                assert(rest.skip((cut - pos) + 1) =~= rv.skip(cut + 1));
                assert(spec_drive_names(rest) == head + spec_drive_names(rv.skip(cut + 1)));
                assert(before + (head + spec_drive_names(rv.skip(cut + 1))) =~= strings_view(out@)
                    + spec_drive_names(rv.skip(cut + 1)));
            } else {
                assert(spec_drive_names(rest) == head);
                assert(before + head =~= strings_view(out@) + spec_drive_names(rv.skip(len as int)))
                    by {
                    assert(rv.skip(len as int) =~= Seq::<u8>::empty());
                }
            }
        }
        pos = if cut < len {
            cut + 1
        } else {
            len
        };
    }
    proof {
        assert(rv.skip(len as int) =~= Seq::<u8>::empty());
        assert(strings_view(out@) + Seq::<Seq<char>>::empty() =~= strings_view(out@));
    }
    out
}

} // verus!
