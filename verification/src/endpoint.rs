//! Endpoints, regions and profiles of S3: which of them fit together, and what to tell the
//! operator where they do not.
use vstd::prelude::*;
use vstd::string::*;

use crate::text::{
    chars_of, contains_text, cut, cut_is_made_at_the_first_place, cut_needs_the_mark, ends_with,
    find_from, has_prefix, has_suffix, has_text, inner_text_is_what_stands_between,
    lemma_find_from, occurs_at, prefix_is_what_comes_first, same_text, split_once, starts_with, string_of,
};

verus! {

/// The AWS partition that a region belongs to.
pub open spec fn region_partition(region: Seq<char>) -> Seq<char> {
    if starts_with(region, "us-gov-"@) {
        "aws-us-gov"@
    } else if starts_with(region, "cn-"@) {
        "aws-cn"@
    } else {
        "aws"@
    }
}

/// The AWS partition that a region belongs to. Partitions are separate clouds: an endpoint
/// in one cannot serve a bucket in another.
pub fn partition_of_region(region: &str) -> (r: &'static str)
    ensures
        r@ == region_partition(region@),
{
    let region = chars_of(region);
    if has_prefix(region.as_slice(), "us-gov-") {
        "aws-us-gov"
    } else if has_prefix(region.as_slice(), "cn-") {
        "aws-cn"
    } else {
        "aws"
    }
}

/// The host of an endpoint: what stands behind its scheme, where it has one, up to the
/// first slash.
pub open spec fn host_of(endpoint: Seq<char>) -> Seq<char> {
    let rest = match cut(endpoint, "://"@) {
        Some((scheme, rest)) => rest,
        None => endpoint,
    };
    match cut(rest, "/"@) {
        Some((host, path)) => host,
        None => rest,
    }
}

/// The partition that an endpoint serves, where its host is one of AWS.
pub open spec fn endpoint_partition(endpoint: Seq<char>) -> Option<Seq<char>> {
    let host = host_of(endpoint);
    let in_china = ends_with(host, ".amazonaws.com.cn"@);
    if !in_china && !ends_with(host, ".amazonaws.com"@) {
        None
    } else if contains_text(host, "us-gov-"@) {
        Some("aws-us-gov"@)
    } else if in_china {
        Some("aws-cn"@)
    } else {
        Some("aws"@)
    }
}

/// The host of an endpoint.
fn host_chars(endpoint: &str) -> (host: Vec<char>)
    ensures
        host@ == host_of(endpoint@),
{
    let endpoint = chars_of(endpoint);
    let rest = match split_once(endpoint.as_slice(), "://") {
        Some((_, rest)) => rest,
        None => endpoint,
    };
    match split_once(rest.as_slice(), "/") {
        Some((host, _)) => host,
        None => rest,
    }
}

/// The partition that an endpoint serves; none for a host that is no AWS endpoint at all,
/// where no guess is made.
pub fn partition_of_endpoint(endpoint: &str) -> (r: Option<&'static str>)
    ensures
        match r {
            Some(partition) => endpoint_partition(endpoint@) == Some(partition@),
            None => endpoint_partition(endpoint@) is None,
        },
{
    let host = host_chars(endpoint);
    let in_china = has_suffix(host.as_slice(), ".amazonaws.com.cn");
    if !in_china && !has_suffix(host.as_slice(), ".amazonaws.com") {
        None
    } else if has_text(host.as_slice(), "us-gov-") {
        Some("aws-us-gov")
    } else if in_china {
        Some("aws-cn")
    } else {
        Some("aws")
    }
}

/// What to do about an endpoint in the wrong partition.
pub open spec fn endpoint_advice(region: Seq<char>, endpoint_from_flag: bool) -> Seq<char> {
    if endpoint_from_flag {
        "Pass --endpoint-url https://s3."@ + region + ".amazonaws.com"@
    } else {
        "Pass --endpoint-url https://s3."@ + region
            + ".amazonaws.com, or clear AWS_S3_ENDPOINT/AWS_ENDPOINT_URL from this process's environment"@
    }
}

/// What to do about an endpoint in the wrong partition.
fn advise(region: &str, endpoint_from_flag: bool) -> (s: String)
    ensures
        s@ == endpoint_advice(region@, endpoint_from_flag),
{
    let mut s = "Pass --endpoint-url https://s3.".to_owned();
    s.append(region);
    if endpoint_from_flag {
        s.append(".amazonaws.com");
    } else {
        s.append(
            ".amazonaws.com, or clear AWS_S3_ENDPOINT/AWS_ENDPOINT_URL from this process's environment",
        );
    }
    s
}

/// Warn where the endpoint serves another partition than the one that the region being
/// signed for is in. Such requests are rejected with a message that names only the region.
pub fn partition_warning(endpoint: &str, region: &str, endpoint_from_flag: bool) -> (r: Option<
    String,
>)
    ensures
        match endpoint_partition(endpoint@) {
            Some(partition) if partition != region_partition(region@) => r is Some && r->0@
                == "[WARN] endpoint "@ + endpoint@ + " serves the '"@ + partition
                + "' partition, but requests are signed for region '"@ + region@ + "' in '"@
                + region_partition(region@)
                + "'. S3 will reject these as AuthorizationHeaderMalformed. "@ + endpoint_advice(
                region@,
                endpoint_from_flag,
            ) + " to reach a bucket in '"@ + region@ + "'."@,
            _ => r is None,
        },
{
    let partition = match partition_of_endpoint(endpoint) {
        Some(partition) => partition,
        None => {
            return None;
        },
    };
    let own = partition_of_region(region);
    if same_text(partition, own) {
        return None;
    }
    let mut s = "[WARN] endpoint ".to_owned();
    s.append(endpoint);
    s.append(" serves the '");
    s.append(partition);
    s.append("' partition, but requests are signed for region '");
    s.append(region);
    s.append("' in '");
    s.append(own);
    s.append("'. S3 will reject these as AuthorizationHeaderMalformed. ");
    s.append(advise(region, endpoint_from_flag).as_str());
    s.append(" to reach a bucket in '");
    s.append(region);
    s.append("'.");
    Some(s)
}

/// The region that S3 expected, as its rejection of a signature names it.
pub open spec fn expected_region(rejection: Seq<char>) -> Option<Seq<char>> {
    if !contains_text(rejection, "AuthorizationHeaderMalformed"@) {
        None
    } else {
        match cut(rejection, "expecting '"@) {
            Some((before, rest)) => match cut(rest, "'"@) {
                Some((region, behind)) => Some(region),
                None => None,
            },
            None => None,
        }
    }
}

/// The region that S3 expected.
fn read_expected_region(rejection: &str) -> (r: Option<String>)
    ensures
        match r {
            Some(region) => expected_region(rejection@) == Some(region@),
            None => expected_region(rejection@) is None,
        },
{
    let rejection = chars_of(rejection);
    if !has_text(rejection.as_slice(), "AuthorizationHeaderMalformed") {
        return None;
    }
    match split_once(rejection.as_slice(), "expecting '") {
        Some((_, rest)) => match split_once(rest.as_slice(), "'") {
            Some((region, _)) => Some(string_of(region.as_slice())),
            None => None,
        },
        None => None,
    }
}

/// The hint on a rejected signature: the region that was signed for, the one expected, and
/// the endpoint that the request went to, since either may be the one that is wrong.
pub open spec fn region_hint_text(
    signed: Seq<char>,
    expected: Seq<char>,
    endpoint: Option<Seq<char>>,
) -> Seq<char> {
    match endpoint {
        Some(endpoint) => "[HINT] Signed for region '"@ + signed + "', but endpoint "@ + endpoint
            + " expects '"@ + expected + "'. If --bucket really is in '"@ + signed
            + "', the endpoint is what is wrong - pass --endpoint-url https://s3."@ + signed
            + ".amazonaws.com (or clear AWS_S3_ENDPOINT/AWS_ENDPOINT_URL). If the bucket is in '"@
            + expected + "', pass --region "@ + expected + " instead."@,
        None => "[HINT] Signed for region '"@ + signed + "', but S3 expects '"@ + expected
            + "'. Pass --region "@ + expected
            + " to sign for the bucket's own region (a --profile otherwise signs for the region that profile declares)."@,
    }
}

/// Turn a rejected signature into a hint. Other failures give none.
pub fn region_hint(
    rejection: &str,
    signing_region: Option<&str>,
    endpoint: Option<&str>,
) -> (r: Option<String>)
    ensures
        match expected_region(rejection@) {
            Some(expected) => r is Some && r->0@ == region_hint_text(
                match signing_region {
                    Some(region) => region@,
                    None => "<unknown>"@,
                },
                expected,
                match endpoint {
                    Some(endpoint) => Some(endpoint@),
                    None => None,
                },
            ),
            None => r is None,
        },
{
    let expected = match read_expected_region(rejection) {
        Some(expected) => expected,
        None => {
            return None;
        },
    };
    let signed = match signing_region {
        Some(region) => region,
        None => "<unknown>",
    };
    let mut s = "[HINT] Signed for region '".to_owned();
    s.append(signed);
    match endpoint {
        Some(endpoint) => {
            s.append("', but endpoint ");
            s.append(endpoint);
            s.append(" expects '");
            s.append(expected.as_str());
            s.append("'. If --bucket really is in '");
            s.append(signed);
            s.append("', the endpoint is what is wrong - pass --endpoint-url https://s3.");
            s.append(signed);
            s.append(
                ".amazonaws.com (or clear AWS_S3_ENDPOINT/AWS_ENDPOINT_URL). If the bucket is in '",
            );
            s.append(expected.as_str());
            s.append("', pass --region ");
            s.append(expected.as_str());
            s.append(" instead.");
        },
        None => {
            s.append("', but S3 expects '");
            s.append(expected.as_str());
            s.append("'. Pass --region ");
            s.append(expected.as_str());
            s.append(
                " to sign for the bucket's own region (a --profile otherwise signs for the region that profile declares).",
            );
        },
    }
    Some(s)
}

/// Warn where a profile was asked for and no profile file can define it. `explicit` says
/// that a file named by the environment exists, and `under_home` whether one lies in the
/// home directory; without a home directory it is none.
pub fn profile_warning(profile: &str, explicit: bool, under_home: Option<bool>) -> (r: Option<
    String,
>)
    ensures
        if explicit || under_home == Some(true) {
            r is None
        } else {
            r is Some && r->0@ == "[WARN] profile '"@ + profile@
                + "' was requested, but no AWS profile file could be found"@ + (
            if under_home is None {
                " (HOME is not set)"@
            } else {
                " under $HOME/.aws"@
            })
                + " - it will resolve to no credentials and no region. If this tool was launched as a subprocess with a replaced environment (e.g. Python's `subprocess.run(env=...)`), pass the existing environment through (`env={**os.environ, \"AWS_PROFILE\": \""@
                + profile@
                + "\"}`), or set AWS_CONFIG_FILE/AWS_SHARED_CREDENTIALS_FILE to the profile files explicitly."@
        },
{
    if explicit {
        return None;
    }
    if let Some(found) = under_home {
        if found {
            return None;
        }
    }
    let mut s = "[WARN] profile '".to_owned();
    s.append(profile);
    s.append("' was requested, but no AWS profile file could be found");
    s.append(
        if under_home.is_none() {
            " (HOME is not set)"
        } else {
            " under $HOME/.aws"
        },
    );
    s.append(
        " - it will resolve to no credentials and no region. If this tool was launched as a subprocess with a replaced environment (e.g. Python's `subprocess.run(env=...)`), pass the existing environment through (`env={**os.environ, \"AWS_PROFILE\": \"",
    );
    s.append(profile);
    s.append(
        "\"}`), or set AWS_CONFIG_FILE/AWS_SHARED_CREDENTIALS_FILE to the profile files explicitly.",
    );
    Some(s)
}

/// The text of an optional string.
pub open spec fn text_of(s: Option<String>) -> Option<Seq<char>> {
    match s {
        Some(s) => Some(s@),
        None => None,
    }
}

/// The profile in force: the one of the flag, or else of the environment. An empty name is
/// none.
pub fn selected_profile(flag: Option<String>, variable: Option<String>) -> (r: Option<String>)
    ensures
        text_of(r) == (match (text_of(flag), text_of(variable)) {
            (Some(profile), _) if profile.len() > 0 => Some(profile),
            (None, Some(profile)) if profile.len() > 0 => Some(profile),
            _ => None,
        }),
{
    let profile = match flag {
        Some(profile) => profile,
        None => match variable {
            Some(profile) => profile,
            None => {
                return None;
            },
        },
    };
    if chars_of(profile.as_str()).len() > 0 {
        Some(profile)
    } else {
        None
    }
}

/// An endpoint with its scheme: a bare host is taken to be `https`.
pub open spec fn schemed(url: Seq<char>) -> Seq<char> {
    if contains_text(url, "://"@) {
        url
    } else {
        "https://"@ + url
    }
}

/// An endpoint with its scheme.
pub fn with_scheme(url: String) -> (r: String)
    ensures
        r@ == schemed(url@),
{
    if has_text(chars_of(url.as_str()).as_slice(), "://") {
        url
    } else {
        let mut r = "https://".to_owned();
        r.append(url.as_str());
        r
    }
}

/// The endpoint in force: the one of the flag, or else of the environment, where the
/// variable for S3 goes before the general one.
pub fn selected_endpoint(
    flag: Option<String>,
    s3_variable: Option<String>,
    general_variable: Option<String>,
) -> (r: Option<String>)
    ensures
        text_of(r) == (match (text_of(flag), text_of(s3_variable), text_of(general_variable)) {
            (Some(url), _, _) => Some(schemed(url)),
            (None, Some(url), _) => Some(schemed(url)),
            (None, None, Some(url)) => Some(schemed(url)),
            (None, None, None) => None,
        }),
{
    match flag {
        Some(url) => Some(with_scheme(url)),
        None => match s3_variable {
            Some(url) => Some(with_scheme(url)),
            None => match general_variable {
                Some(url) => Some(with_scheme(url)),
                None => None,
            },
        },
    }
}

/// An endpoint has its scheme once: giving it one again changes nothing.
pub proof fn scheme_is_given_once(url: Seq<char>)
    ensures
        schemed(schemed(url)) == schemed(url),
{
    if !contains_text(url, "://"@) {
        reveal_strlit("https://");
        reveal_strlit("://");
        let whole = "https://"@ + url;
        assert(whole.subrange(5, 8) =~= "://"@);
        assert(occurs_at(whole, "://"@, 5));
    }
}

/// The endpoint that the advice names.
pub open spec fn advised_endpoint(region: Seq<char>) -> Seq<char> {
    "https://s3."@ + region + ".amazonaws.com"@
}

/// The endpoint that the advice names serves the partition of the region, so that following
/// the advice ends the warning. Regions in China are left out: their endpoints end in
/// `.amazonaws.com.cn`, which the advice does not name.
pub proof fn advice_ends_the_warning(region: Seq<char>)
    requires
        !starts_with(region, "cn-"@),
        contains_text(region, "us-gov-"@) ==> starts_with(region, "us-gov-"@),
        forall|i: int| 0 <= i < region.len() ==> region[i] != '/',
    ensures
        endpoint_partition(advised_endpoint(region)) == Some(region_partition(region)),
{
    let host = "s3."@ + region + ".amazonaws.com"@;
    lemma_advised_host(region);
    lemma_advised_host_is_global(region);
    lemma_gov_is_of_the_region(region);
    assert(host_of(advised_endpoint(region)) == host);
}

/// The host of the endpoint that the advice names.
proof fn lemma_advised_host(region: Seq<char>)
    requires
        forall|i: int| 0 <= i < region.len() ==> region[i] != '/',
    ensures
        host_of(advised_endpoint(region)) == "s3."@ + region + ".amazonaws.com"@,
{
    reveal_strlit("https://s3.");
    reveal_strlit("https");
    reveal_strlit("s3.");
    reveal_strlit("://");
    reveal_strlit(".amazonaws.com");
    let host = "s3."@ + region + ".amazonaws.com"@;
    let scheme = "https"@;
    assert(advised_endpoint(region) =~= scheme + "://"@ + host);
    assert forall|i: int| 0 <= i < host.len() implies host[i] != '/' by {
        if 3 <= i < 3 + region.len() {
            assert(host[i] == region[i - 3]);
        }
    }
    assert forall|i: int| 0 <= i < scheme.len() implies scheme[i] != ':' by {}
    host_stands_behind_the_scheme(scheme, host, Seq::empty());
}

/// That host lies in the domain of AWS, and not in the one for China.
proof fn lemma_advised_host_is_global(region: Seq<char>)
    ensures
        ends_with("s3."@ + region + ".amazonaws.com"@, ".amazonaws.com"@),
        !ends_with("s3."@ + region + ".amazonaws.com"@, ".amazonaws.com.cn"@),
{
    reveal_strlit("s3.");
    reveal_strlit(".amazonaws.com");
    reveal_strlit(".amazonaws.com.cn");
    let host = "s3."@ + region + ".amazonaws.com"@;
    let n = host.len() as int;
    assert(host.subrange(n - 14, n) =~= ".amazonaws.com"@);
    if ends_with(host, ".amazonaws.com.cn"@) {
        assert(host.subrange(n - 17, n)[16] == 'n');
        assert(host[n - 1] == 'm');
    }
}

/// That host names a region of the government partition exactly where the region is one.
proof fn lemma_gov_is_of_the_region(region: Seq<char>)
    ensures
        contains_text("s3."@ + region + ".amazonaws.com"@, "us-gov-"@) <==> contains_text(
            region,
            "us-gov-"@,
        ),
{
    reveal_strlit("s3.");
    reveal_strlit(".amazonaws.com");
    reveal_strlit("us-gov-");
    let gov = "us-gov-"@;
    let host = "s3."@ + region + ".amazonaws.com"@;
    if contains_text(host, gov) {
        let i = choose|i: int| occurs_at(host, gov, i);
        let found = host.subrange(i, i + 7);
        assert(found[0] == host[i] && found[1] == host[i + 1] && found[2] == host[i + 2]
            && found[3] == host[i + 3] && found[4] == host[i + 4] && found[5] == host[i + 5]
            && found[6] == host[i + 6]);
        assert(host[2] == '.' && host[(3 + region.len()) as int] == '.');
        assert(3 <= i && i + 7 <= 3 + region.len());
        assert(region.subrange(i - 3, i + 4) =~= gov);
        assert(occurs_at(region, gov, i - 3));
    }
    if contains_text(region, gov) {
        let i = choose|i: int| occurs_at(region, gov, i);
        assert(host.subrange(i + 3, i + 10) =~= region.subrange(i, i + 7));
        assert(occurs_at(host, gov, i + 3));
    }
}

/// The host of an endpoint stands between its scheme and the first slash behind it.
pub proof fn host_stands_behind_the_scheme(scheme: Seq<char>, host: Seq<char>, path: Seq<char>)
    requires
        forall|i: int| 0 <= i < scheme.len() ==> scheme[i] != ':',
        forall|i: int| 0 <= i < host.len() ==> host[i] != '/',
    ensures
        host_of(scheme + "://"@ + host + "/"@ + path) == host,
        host_of(scheme + "://"@ + host) == host,
{
    reveal_strlit("://");
    reveal_strlit("/");
    cut_needs_the_mark(host, "/"@, path);
    cut_needs_the_mark(scheme, "://"@, host);
    cut_needs_the_mark(scheme, "://"@, host + "/"@ + path);
    assert(scheme + "://"@ + host + "/"@ + path =~= scheme + "://"@ + (host + "/"@ + path));
}

/// Without a scheme the host of an endpoint reaches from the start to the first slash.
pub proof fn host_without_scheme_comes_first(host: Seq<char>, path: Seq<char>)
    requires
        forall|i: int| 0 <= i < host.len() ==> host[i] != '/',
    ensures
        host_of(host) == host,
        !contains_text(host + "/"@ + path, "://"@) ==> host_of(host + "/"@ + path) == host,
{
    reveal_strlit("://");
    reveal_strlit("/");
    cut_needs_the_mark(host, "/"@, path);
    let whole = host + "/"@ + path;
    lemma_find_from(whole, "://"@, 0);
    lemma_find_from(host, "://"@, 0);
    if let Some(i) = find_from(host, "://"@, 0) {
        assert(host.subrange(i, i + 3)[1] == '/');
        assert(host[i + 1] == '/');
    }
    if let Some(i) = find_from(whole, "://"@, 0) {
        assert(occurs_at(whole, "://"@, i));
    }
}

/// A region whose name begins with `us-gov-` is in the government partition, one whose name
/// begins with `cn-` in China's, and any other in the common one.
pub proof fn region_name_tells_the_partition(region: Seq<char>)
    ensures
        region_partition("us-gov-"@ + region) == "aws-us-gov"@,
        region_partition("cn-"@ + region) == "aws-cn"@,
        !starts_with(region, "us-gov-"@) && !starts_with(region, "cn-"@) ==> region_partition(
            region,
        ) == "aws"@,
{
    reveal_strlit("us-gov-");
    reveal_strlit("cn-");
    prefix_is_what_comes_first(region, "us-gov-"@, region);
    prefix_is_what_comes_first(region, "cn-"@, region);
    let cn = "cn-"@ + region;
    if starts_with(cn, "us-gov-"@) {
        assert(cn.subrange(0, 7)[0] == 'u');
        assert(cn[0] == 'c');
    }
}

/// A host below `amazonaws.com` or `amazonaws.com.cn` is one of AWS. It serves the government
/// partition where it names a region of that, in either domain; else the domain decides. No
/// guess is made about any other host.
pub proof fn domain_and_region_tell_the_partition(endpoint: Seq<char>, host: Seq<char>)
    requires
        host_of(endpoint) == host,
    ensures
        ends_with(host, ".amazonaws.com"@) || ends_with(host, ".amazonaws.com.cn"@) ==> {
            &&& contains_text(host, "us-gov-"@) ==> endpoint_partition(endpoint) == Some(
                "aws-us-gov"@,
            )
            &&& !contains_text(host, "us-gov-"@) && ends_with(host, ".amazonaws.com.cn"@)
                ==> endpoint_partition(endpoint) == Some("aws-cn"@)
            &&& !contains_text(host, "us-gov-"@) && !ends_with(host, ".amazonaws.com.cn"@)
                ==> endpoint_partition(endpoint) == Some("aws"@)
        },
        !ends_with(host, ".amazonaws.com"@) && !ends_with(host, ".amazonaws.com.cn"@)
            ==> endpoint_partition(endpoint) is None,
{
}

/// The region that S3 expected stands in quotes behind the first `expecting`, in a rejection
/// that says that the header was malformed. Any other text names none.
pub proof fn expected_region_stands_in_quotes(
    before: Seq<char>,
    region: Seq<char>,
    behind: Seq<char>,
    other: Seq<char>,
)
    requires
        !region.contains('\''),
        forall|j: int|
            0 <= j < before.len() ==> !#[trigger] occurs_at(
                before + "expecting '"@ + (region + "'"@ + behind),
                "expecting '"@,
                j,
            ),
    ensures
        contains_text(
            before + "expecting '"@ + (region + "'"@ + behind),
            "AuthorizationHeaderMalformed"@,
        ) ==> expected_region(before + "expecting '"@ + (region + "'"@ + behind)) == Some(region),
        !contains_text(other, "AuthorizationHeaderMalformed"@) ==> expected_region(other) is None,
        !contains_text(other, "expecting '"@) ==> expected_region(other) is None,
{
    reveal_strlit("'");
    cut_is_made_at_the_first_place(before, "expecting '"@, region + "'"@ + behind);
    cut_needs_the_mark(region, "'"@, behind);
    lemma_find_from(other, "expecting '"@, 0);
    if let Some(i) = find_from(other, "expecting '"@, 0) {
        assert(occurs_at(other, "expecting '"@, i));
    }
}

/// A bare host becomes an `https` endpoint, and an endpoint with a scheme stays as it is.
pub proof fn bare_host_is_taken_as_https(url: Seq<char>)
    ensures
        !contains_text(url, "://"@) ==> schemed(url) == "https://"@ + url,
        contains_text(url, "://"@) ==> schemed(url) == url,
{
}

/// The advice names the endpoint of the region; it speaks of the environment only where the
/// endpoint did not come from the flag.
pub proof fn advice_names_the_endpoint(region: Seq<char>)
    ensures
        endpoint_advice(region, true) == "Pass --endpoint-url "@ + advised_endpoint(region),
        endpoint_advice(region, false) == "Pass --endpoint-url "@ + advised_endpoint(region)
            + ", or clear AWS_S3_ENDPOINT/AWS_ENDPOINT_URL from this process's environment"@,
{
    reveal_strlit("Pass --endpoint-url https://s3.");
    reveal_strlit("Pass --endpoint-url ");
    reveal_strlit("https://s3.");
    reveal_strlit(".amazonaws.com");
    reveal_strlit(
        ".amazonaws.com, or clear AWS_S3_ENDPOINT/AWS_ENDPOINT_URL from this process's environment",
    );
    reveal_strlit(", or clear AWS_S3_ENDPOINT/AWS_ENDPOINT_URL from this process's environment");
    let start = "Pass --endpoint-url "@ + "https://s3."@;
    assert("Pass --endpoint-url https://s3."@ =~= start);
    assert(".amazonaws.com, or clear AWS_S3_ENDPOINT/AWS_ENDPOINT_URL from this process's environment"@
        =~= ".amazonaws.com"@
        + ", or clear AWS_S3_ENDPOINT/AWS_ENDPOINT_URL from this process's environment"@);
    assert(endpoint_advice(region, true) =~= "Pass --endpoint-url "@ + advised_endpoint(region));
    assert(endpoint_advice(region, false) =~= "Pass --endpoint-url "@ + advised_endpoint(region)
        + ", or clear AWS_S3_ENDPOINT/AWS_ENDPOINT_URL from this process's environment"@);
}

/// The hint begins with the region that was signed for. With an endpoint it says what that
/// endpoint expects and names both remedies: the endpoint of the region that was signed for,
/// and the region that is expected.
pub proof fn hint_with_endpoint_names_both_remedies(
    signed: Seq<char>,
    expected: Seq<char>,
    endpoint: Seq<char>,
)
    ensures
        ({
            let text = region_hint_text(signed, expected, Some(endpoint));
            &&& starts_with(
                text,
                "[HINT] Signed for region '"@ + signed + "', but endpoint "@ + endpoint
                    + " expects '"@ + expected + "'."@,
            )
            &&& contains_text(text, "pass --endpoint-url "@ + advised_endpoint(signed))
            &&& contains_text(text, "pass --region "@ + expected)
        }),
{
    let a = "[HINT] Signed for region '"@ + signed + "', but endpoint "@ + endpoint
        + " expects '"@ + expected;
    let really = "'. If --bucket really is in '"@;
    let wrong = "', the endpoint is what is wrong - pass --endpoint-url https://s3."@;
    let clear =
        ".amazonaws.com (or clear AWS_S3_ENDPOINT/AWS_ENDPOINT_URL). If the bucket is in '"@;
    let last = "', pass --region "@;
    lemma_hint_literals();
    let middle = signed + wrong + signed + clear + expected + last + expected + " instead."@;
    lemma_prefix_of(a, "'."@, really.skip(2), middle);
    lemma_text_inside(
        a + really + signed,
        wrong.take(wrong.len() - 31),
        "pass --endpoint-url "@,
        "https://s3."@,
        signed,
        ".amazonaws.com"@,
        clear.skip(14),
        expected + last + expected + " instead."@,
    );
    lemma_text_inside(
        a + really + signed + wrong + signed + clear + expected,
        last.take(3),
        "pass --region "@,
        Seq::empty(),
        expected,
        Seq::empty(),
        " instead."@,
        Seq::empty(),
    );
    lemma_hint_groups(a, really, signed, wrong, clear, expected, last, " instead."@);
    assert("https://s3."@ + signed + ".amazonaws.com"@ == advised_endpoint(signed));
    assert(Seq::<char>::empty() + expected + Seq::<char>::empty() =~= expected);
}

/// What begins with a text begins with what that text begins with.
proof fn lemma_prefix_of(a: Seq<char>, x: Seq<char>, y: Seq<char>, rest: Seq<char>)
    ensures
        starts_with(a + (x + y) + rest, a + x),
{
    assert(a + (x + y) + rest =~= (a + x) + (y + rest));
    prefix_is_what_comes_first(a, a + x, y + rest);
}

/// Neighbouring parts of a text stand in it together.
proof fn lemma_text_inside(
    before: Seq<char>,
    w: Seq<char>,
    p: Seq<char>,
    x: Seq<char>,
    y: Seq<char>,
    z: Seq<char>,
    c: Seq<char>,
    behind: Seq<char>,
)
    ensures
        contains_text(before + (w + p + x) + y + (z + c) + behind, p + (x + y + z)),
{
    assert(before + (w + p + x) + y + (z + c) + behind =~= (before + w) + (p + (x + y + z)) + (c
        + behind));
    inner_text_is_what_stands_between(before, before + w, p + (x + y + z), c + behind);
}

/// The parts of the hint can be taken together in any way.
proof fn lemma_hint_groups(
    a: Seq<char>,
    really: Seq<char>,
    signed: Seq<char>,
    wrong: Seq<char>,
    clear: Seq<char>,
    expected: Seq<char>,
    last: Seq<char>,
    tail: Seq<char>,
)
    ensures
        ({
            let text = a + really + signed + wrong + signed + clear + expected + last + expected
                + tail;
            &&& text == a + really + (signed + wrong + signed + clear + expected + last + expected
                + tail)
            &&& text == (a + really + signed) + wrong + signed + clear + (expected + last
                + expected + tail)
            &&& text == (a + really + signed + wrong + signed + clear + expected) + (last
                + Seq::empty()) + expected + (Seq::empty() + tail) + Seq::empty()
        }),
{
    let text = a + really + signed + wrong + signed + clear + expected + last + expected + tail;
    assert(text =~= a + really + (signed + wrong + signed + clear + expected + last + expected
        + tail));
    assert(text =~= (a + really + signed) + wrong + signed + clear + (expected + last + expected
        + tail));
    assert(last + Seq::<char>::empty() =~= last);
    assert(Seq::<char>::empty() + tail =~= tail);
    assert(text + Seq::<char>::empty() =~= text);
}

/// The parts of the hint with an endpoint.
proof fn lemma_hint_literals()
    ensures
        "'. If --bucket really is in '"@ == "'."@ + "'. If --bucket really is in '"@.skip(2),
        ({
            let wrong = "', the endpoint is what is wrong - pass --endpoint-url https://s3."@;
            &&& wrong.len() >= 31
            &&& wrong == wrong.take(wrong.len() - 31) + "pass --endpoint-url "@ + "https://s3."@
        }),
        ({
            let clear =
                ".amazonaws.com (or clear AWS_S3_ENDPOINT/AWS_ENDPOINT_URL). If the bucket is in '"@;
            clear == ".amazonaws.com"@ + clear.skip(14)
        }),
        "', pass --region "@ == "', pass --region "@.take(3) + "pass --region "@,
{
    reveal_strlit("'. If --bucket really is in '");
    reveal_strlit("'.");
    reveal_strlit("', the endpoint is what is wrong - pass --endpoint-url https://s3.");
    reveal_strlit("pass --endpoint-url ");
    reveal_strlit("https://s3.");
    reveal_strlit(
        ".amazonaws.com (or clear AWS_S3_ENDPOINT/AWS_ENDPOINT_URL). If the bucket is in '",
    );
    reveal_strlit(".amazonaws.com");
    reveal_strlit("', pass --region ");
    reveal_strlit("pass --region ");
}

/// Without an endpoint the hint says what S3 expects and names the one remedy, to sign for
/// the region that is expected.
pub proof fn hint_without_endpoint_names_the_region(signed: Seq<char>, expected: Seq<char>)
    ensures
        starts_with(
            region_hint_text(signed, expected, None),
            "[HINT] Signed for region '"@ + signed + "', but S3 expects '"@ + expected
                + "'. Pass --region "@ + expected + " "@,
        ),
{
    let text = region_hint_text(signed, expected, None);
    let tail =
        " to sign for the bucket's own region (a --profile otherwise signs for the region that profile declares)."@;
    let a = "[HINT] Signed for region '"@ + signed + "', but S3 expects '"@ + expected
        + "'. Pass --region "@ + expected;
    reveal_strlit(
        " to sign for the bucket's own region (a --profile otherwise signs for the region that profile declares).",
    );
    reveal_strlit(" ");
    let rest = tail.skip(1);
    assert(tail =~= " "@ + rest);
    assert(text =~= a + " "@ + rest);
    prefix_is_what_comes_first(text, a + " "@, rest);
}

/// A warning is due exactly where the endpoint serves a partition and the region is in
/// another one.
pub proof fn warning_is_due_for_another_partition(
    endpoint: &str,
    region: &str,
    from_flag: bool,
    r: Option<String>,
)
    requires
        call_ensures(partition_warning, (endpoint, region, from_flag), r),
    ensures
        r is Some <==> (endpoint_partition(endpoint@) matches Some(partition) && partition
            != region_partition(region@)),
{
}

/// A hint is given exactly on a rejection that names the expected region; without a region
/// that was signed for it says so.
pub proof fn hint_is_given_on_a_rejection(
    rejection: &str,
    signing_region: Option<&str>,
    endpoint: Option<&str>,
    r: Option<String>,
)
    requires
        call_ensures(region_hint, (rejection, signing_region, endpoint), r),
    ensures
        r is Some <==> expected_region(rejection@) is Some,
        expected_region(rejection@) matches Some(expected) ==> {
            let signed = if signing_region is Some {
                signing_region->0@
            } else {
                "<unknown>"@
            };
            &&& endpoint matches Some(endpoint) ==> r->0@ == region_hint_text(
                signed,
                expected,
                Some(endpoint@),
            )
            &&& endpoint is None ==> r->0@ == region_hint_text(signed, expected, None)
        },
{
}

/// A profile is warned of exactly where neither a file named by the environment nor one in the
/// home directory exists.
pub proof fn profile_needs_one_file(
    profile: &str,
    explicit: bool,
    under_home: Option<bool>,
    r: Option<String>,
)
    requires
        call_ensures(profile_warning, (profile, explicit, under_home), r),
    ensures
        r is None <==> explicit || under_home == Some(true),
{
}

/// The profile of the flag counts before that of the environment. An empty name is none, and
/// an empty flag does not fall back on the environment.
pub proof fn flag_comes_before_the_profile_variable(
    flag: Option<String>,
    variable: Option<String>,
    r: Option<String>,
)
    requires
        call_ensures(selected_profile, (flag, variable), r),
    ensures
        flag matches Some(profile) ==> if profile@.len() > 0 {
            r matches Some(chosen) && chosen@ == profile@
        } else {
            r is None
        },
        flag is None ==> (variable matches Some(profile) ==> if profile@.len() > 0 {
            r matches Some(chosen) && chosen@ == profile@
        } else {
            r is None
        }),
        flag is None && variable is None ==> r is None,
{
}

/// The endpoint of the flag counts first, that of the variable for S3 second, and that of the
/// general variable last.
pub proof fn flag_comes_before_the_endpoint_variables(
    flag: Option<String>,
    s3_variable: Option<String>,
    general_variable: Option<String>,
    r: Option<String>,
)
    requires
        call_ensures(selected_endpoint, (flag, s3_variable, general_variable), r),
    ensures
        flag matches Some(url) ==> (r matches Some(chosen) && chosen@ == schemed(url@)),
        flag is None ==> (s3_variable matches Some(url) ==> (r matches Some(chosen) && chosen@
            == schemed(url@))),
        flag is None && s3_variable is None ==> (general_variable matches Some(url) ==> (
        r matches Some(chosen) && chosen@ == schemed(url@))),
        flag is None && s3_variable is None && general_variable is None ==> r is None,
{
}

/// A rejection whose quote is not closed names no region.
pub proof fn open_quote_names_no_region(before: Seq<char>, rest: Seq<char>)
    requires
        !rest.contains('\''),
        forall|j: int|
            0 <= j < before.len() ==> !#[trigger] occurs_at(
                before + "expecting '"@ + rest,
                "expecting '"@,
                j,
            ),
    ensures
        expected_region(before + "expecting '"@ + rest) is None,
{
    reveal_strlit("'");
    cut_is_made_at_the_first_place(before, "expecting '"@, rest);
    cut_needs_the_mark(rest, "'"@, Seq::empty());
}

/// The host of an endpoint is what stands before the first slash in what stands behind the
/// first `://`, or in all of it where there is none.
pub proof fn host_is_cut_out(endpoint: Seq<char>)
    ensures
        cut(endpoint, "://"@) matches Some((scheme, rest)) ==> {
            &&& cut(rest, "/"@) matches Some((host, path)) ==> host_of(endpoint) == host
            &&& cut(rest, "/"@) is None ==> host_of(endpoint) == rest
        },
        cut(endpoint, "://"@) is None ==> {
            &&& cut(endpoint, "/"@) matches Some((host, path)) ==> host_of(endpoint) == host
            &&& cut(endpoint, "/"@) is None ==> host_of(endpoint) == endpoint
        },
{
}

} // verus!
