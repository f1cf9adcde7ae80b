//! What leaves the panel: reports that are saved, and links that are opened.

use vstd::prelude::*;

use crate::text;

verus! {

/// The most bytes of a report.
pub const MAX_TEXT: usize = 4_194_304;

/// A character that the name of a report may hold.
pub open spec fn plain_char(c: char) -> bool {
    text::ascii_alnum(c) || c == '.' || c == '-' || c == '_'
}

/// A name with an underscore for every character that it may not hold.
pub open spec fn cleaned(s: Seq<char>) -> Seq<char> {
    s.map_values(
        |c: char|
            if plain_char(c) {
                c
            } else {
                '_'
            },
    )
}

/// The name under which a report is saved; or why it is not.
pub fn export_name(file_name: &str, text_len: usize) -> (r: Result<String, String>)
    ensures
        match r {
            Ok(name) => text_len <= MAX_TEXT && name@ == cleaned(file_name@) && name@.len() > 0
                && name@[0] != '.',
            Err(e) => if text_len > MAX_TEXT {
                e@ == "Content too large"@
            } else {
                e@ == "Invalid file name"@ && (file_name@.len() == 0 || cleaned(file_name@)[0]
                    == '.')
            },
        },
{
    if text_len > MAX_TEXT {
        return Err("Content too large".to_owned());
    }
    let cs = text::chars_of(file_name);
    let mut out: Vec<char> = Vec::new();
    for i in 0..cs.len()
        invariant
            cs@ == file_name@,
            out@ == cleaned(cs@).take(i as int),
    {
        let c = cs[i];
        let plain = text::is_ascii_alnum(c) || c == '.' || c == '-' || c == '_';
        out.push(
            if plain {
                c
            } else {
                '_'
            },
        );
        assert(out@ =~= cleaned(cs@).take(i + 1));
    }
    assert(cleaned(cs@).take(cs@.len() as int) =~= cleaned(cs@));
    if out.len() == 0 || out[0] == '.' {
        return Err("Invalid file name".to_owned());
    }
    Ok(text::string_of(&out))
}

/// A name under which a report is saved holds no separator of paths, whatever was asked for.
pub proof fn law_report_stays_in_its_directory(s: Seq<char>)
    ensures
        !cleaned(s).contains('/'),
        !cleaned(s).contains('\\'),
        !cleaned(s).contains(':'),
{
    let t = cleaned(s);
    assert forall|i: int| 0 <= i < t.len() implies #[trigger] t[i] != '/' && t[i] != '\\' && t[i]
        != ':' by {
        assert(plain_char(t[i]));
    }
}

/// Whether a link may be opened; or why not.
pub fn link_allowed(url: &str) -> (r: Result<(), String>)
    ensures
        match r {
            Ok(_) => text::has_prefix(url@, "https://"@),
            Err(e) => !text::has_prefix(url@, "https://"@) && e@
                == "Only https links are supported"@,
        },
{
    if text::starts_with(url, "https://") {
        Ok(())
    } else {
        Err("Only https links are supported".to_owned())
    }
}

} // verus!
