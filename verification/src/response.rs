//! Building the public download descriptor for a resolved artifact.
//!
//! The URL is the fixed CDN template with app, platform, arch and the
//! artifact name (the signature suffix stripped) substituted in.  The
//! signature travels verbatim; the timestamp is rendered as RFC 3339, or left
//! empty when it cannot be — a missing timestamp never aborts a response.

use vstd::prelude::*;

use crate::scanner::{has_sig_suffix, sig_base};

verus! {

/// The public descriptor offered to the client.
pub struct UpdateDescriptor {
    pub url: String,
    pub version: String,
    pub notes: String,
    pub pub_date: String,
    pub signature: String,
}

pub open spec fn url_of(
    app: Seq<char>,
    platform: Seq<char>,
    arch: Seq<char>,
    artifact: Seq<char>,
) -> Seq<char> {
    "https://cdn.fabianlars.de/releases/"@ + app + "/latest/"@ + platform + "/"@ + arch + "/"@
        + artifact
}

pub open spec fn notes_text() -> Seq<char> {
    "No patch notes provided. You might want to check the project page on GitHub."@
}

pub uninterp spec fn rfc3339_of(secs: i64, nanos: u32) -> Seq<char>;

/// Relies on chrono's `DateTime::<Utc>::from_timestamp` and its `%+`
/// (RFC 3339) formatting: the rendered text is a pure function of the
/// seconds and nanoseconds handed in (the rendering is in UTC and consults
/// neither locale nor environment), the conversion returns `None` only for an
/// out-of-range timestamp, and every timestamp from the epoch up to the year
/// 2100 with a sub-second nanosecond part is in range.
#[verifier::external_body]
fn rfc3339_render(secs: i64, nanos: u32) -> (r: Option<String>)
    ensures
        r matches Some(s) ==> s@ == rfc3339_of(secs, nanos),
        0 <= secs < 4102444800 && nanos < 1000000000 ==> r is Some,
{
    match chrono::DateTime::<chrono::Utc>::from_timestamp(secs, nanos) {
        Some(dt) => Some(dt.format("%+").to_string()),
        None => None,
    }
}

/// The artifact's name: the signature file's name with `.sig` stripped.
pub fn artifact_name(file_name: &str) -> (r: String)
    requires
        has_sig_suffix(file_name@),
    ensures
        r@ == sig_base(file_name@),
{
    let n = file_name.unicode_len();
    file_name.substring_char(0, n - 4).to_owned()
}

/// Substitute into the fixed public URL template.
pub fn build_url(app: &str, platform: &str, arch: &str, artifact: &str) -> (r: String)
    ensures
        r@ == url_of(app@, platform@, arch@, artifact@),
{
    let mut s = String::new();
    s.append("https://cdn.fabianlars.de/releases/");
    s.append(app);
    s.append("/latest/");
    s.append(platform);
    s.append("/");
    s.append(arch);
    s.append("/");
    s.append(artifact);
    proof {
        assert(s@ =~= url_of(app@, platform@, arch@, artifact@));
    }
    s
}

/// Package a resolved candidate into the public descriptor.  `timestamp` is
/// the artifact's creation time as whole seconds since the epoch plus
/// nanoseconds, if the filesystem offered one; the rendered date degrades to
/// an empty string rather than failing the response.
pub fn finish_update(
    app: &str,
    platform: &str,
    arch: &str,
    file_name: &str,
    version: &str,
    signature: String,
    timestamp: Option<(i64, u32)>,
) -> (d: UpdateDescriptor)
    requires
        has_sig_suffix(file_name@),
    ensures
        d.url@ == url_of(app@, platform@, arch@, sig_base(file_name@)),
        d.version@ == version@,
        d.notes@ == notes_text(),
        d.signature@ == signature@,
        timestamp is None ==> d.pub_date@ == Seq::<char>::empty(),
        timestamp matches Some((s, n)) ==> d.pub_date@ == rfc3339_of(s, n) || d.pub_date@
            == Seq::<char>::empty(),
        timestamp matches Some((s, n)) ==> ((0 <= s < 4102444800 && n < 1000000000)
            ==> d.pub_date@ == rfc3339_of(s, n)),
{
    let artifact = artifact_name(file_name);
    let url = build_url(app, platform, arch, artifact.as_str());
    let pub_date: String = match timestamp {
        Some((secs, nanos)) => match rfc3339_render(secs, nanos) {
            Some(s) => s,
            None => String::new(),
        },
        None => String::new(),
    };
    UpdateDescriptor {
        url,
        version: version.to_owned(),
        notes: "No patch notes provided. You might want to check the project page on GitHub.".to_owned(),
        pub_date,
        signature,
    }
}

// ---------------------------------------------------------------------------
// The URL round-trip law
// ---------------------------------------------------------------------------

/// The part of a URL after its last `/` (the whole string if there is none).
pub open spec fn after_last_slash(u: Seq<char>) -> Seq<char>
    decreases u.len(),
{
    if u.len() == 0 {
        u
    } else if u.last() == '/' {
        Seq::empty()
    } else {
        after_last_slash(u.drop_last()) + seq![u.last()]
    }
}

proof fn lemma_after_last_slash(p: Seq<char>, a: Seq<char>)
    requires
        p.len() > 0,
        p.last() == '/',
        forall|j: int| 0 <= j < a.len() ==> a[j] != '/',
    ensures
        after_last_slash(p + a) == a,
    decreases a.len(),
{
    if a.len() == 0 {
        assert(p + a =~= p);
        assert(after_last_slash(p + a) =~= a);
    } else {
        assert((p + a).last() == a.last());
        assert((p + a).drop_last() =~= p + a.drop_last());
        lemma_after_last_slash(p, a.drop_last());
        assert(after_last_slash(p + a) =~= a.drop_last() + seq![a.last()]);
        assert(a.drop_last() + seq![a.last()] =~= a);
    }
}

/// Round trip from a resolved signature-file name to the download URL: the
/// URL's final path segment is exactly the artifact name, the file name with
/// its `.sig` suffix stripped.
pub proof fn lemma_url_round_trip(
    app: Seq<char>,
    platform: Seq<char>,
    arch: Seq<char>,
    name: Seq<char>,
)
    requires
        has_sig_suffix(name),
        forall|j: int| 0 <= j < name.len() ==> name[j] != '/',
    ensures
        after_last_slash(url_of(app, platform, arch, sig_base(name))) == sig_base(name),
{
    let p = "https://cdn.fabianlars.de/releases/"@ + app + "/latest/"@ + platform + "/"@ + arch
        + "/"@;
    reveal_strlit("/");
    assert("/"@.len() == 1 && "/"@[0] == '/');
    assert(p.last() == '/');
    assert(forall|j: int| 0 <= j < sig_base(name).len() ==> #[trigger] sig_base(name)[j] != '/');
    lemma_after_last_slash(p, sig_base(name));
    assert(url_of(app, platform, arch, sig_base(name)) =~= p + sig_base(name));
}

} // verus!
