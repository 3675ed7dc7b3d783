//! The default configuration written into a fresh repository, and the
//! structured-config writer that turns section/key/value data into the
//! line-oriented `[section]` / `key=value` text.

use vstd::prelude::*;
use vstd::string::*;

verus! {

/// The default configuration data: section `core` with the three fixed keys.
pub open spec fn default_config_view() -> Seq<(Seq<char>, Seq<(Seq<char>, Seq<char>)>)> {
    seq![
        (
            "core"@,
            seq![
                ("repositoryformatversion"@, "0"@),
                ("filemode"@, "false"@),
                ("bare"@, "false"@),
            ],
        ),
    ]
}

/// Build the default configuration mapping.
pub fn default_config() -> (r: Vec<(String, Vec<(String, String)>)>)
    ensures
        r.deep_view() == default_config_view(),
{
    let mut kvs: Vec<(String, String)> = Vec::new();
    kvs.push((String::from_str("repositoryformatversion"), String::from_str("0")));
    kvs.push((String::from_str("filemode"), String::from_str("false")));
    kvs.push((String::from_str("bare"), String::from_str("false")));
    let mut secs: Vec<(String, Vec<(String, String)>)> = Vec::new();
    secs.push((String::from_str("core"), kvs));
    proof {
        assert(secs.deep_view() =~~= default_config_view());
    }
    secs
}

/// The text the structured-config writer produces for given section data.
pub uninterp spec fn ini_text_of(sections: Seq<(Seq<char>, Seq<(Seq<char>, Seq<char>)>)>) -> Seq<
    char,
>;

/// Relies on `ini::Ini::write_to` (rust-ini): the rendered `[section]` /
/// `key=value` text is a pure function of the section data handed to it, and
/// writing into an in-memory buffer does not fail.
#[verifier::external_body]
pub(crate) fn serialize_config(sections: &Vec<(String, Vec<(String, String)>)>) -> (r: String)
    ensures
        r@ == ini_text_of(sections.deep_view()),
{
    let mut cfg = ini::Ini::new();
    for (name, kvs) in sections.iter() {
        for (k, v) in kvs.iter() {
            cfg.with_section(Some(name.as_str())).set(k.as_str(), v.as_str());
        }
    }
    let mut buf: Vec<u8> = Vec::new();
    let _ = cfg.write_to(&mut buf);
    String::from_utf8(buf).unwrap_or_default()
}

} // verus!
