//! Signed POST policies for browser uploads to S3-compatible object storage.

use vstd::prelude::*;
use vstd::utf8::encode_utf8;
use base64::Engine;
use chrono::DateTime;
use std::fmt::Write;
use hmac::{Hmac, Mac};
use sha2::Sha256;
use crate::text::{chars_of, string_of};
use crate::time_util::clock_since_epoch;

verus! {

/// Where to post an upload, and the signed fields to post with it.
#[derive(Debug, Clone)]
pub struct PostPolicyResponse {
    pub url: String,
    pub fields: PostPolicyFields,
}

/// The signed form fields of an upload.
#[derive(Debug, Clone)]
pub struct PostPolicyFields {
    pub key: String,
    pub policy: String,
    pub x_amz_algorithm: String,
    pub x_amz_credential: String,
    pub x_amz_date: String,
    pub x_amz_signature: String,
}

/// The HMAC-SHA256 tag of `data` under `key`.
pub uninterp spec fn hmac_sha256_of(key: Seq<u8>, data: Seq<u8>) -> Seq<u8>;

/// The standard, padded base64 encoding of `b`.
pub uninterp spec fn base64_of(b: Seq<u8>) -> Seq<char>;

/// `s` as a JSON string literal, quoted and escaped.
pub uninterp spec fn json_quoted(s: Seq<char>) -> Seq<char>;

/// Relies on `Hmac::<Sha256>` of the hmac and sha2 crates: the tag of `data`
/// under `key`. Any key length is accepted; the tag has 32 bytes.
#[verifier::external_body]
fn hmac_sha256(key: &[u8], data: &[u8]) -> (r: Vec<u8>)
    ensures
        r@ == hmac_sha256_of(key@, data@),
        r@.len() == 32,
{
    let mut mac = Hmac::<Sha256>::new_from_slice(key).expect("HMAC can take key of any size");
    mac.update(data);
    mac.finalize().into_bytes().to_vec()
}

/// Relies on base64's `general_purpose::STANDARD` engine.
#[verifier::external_body]
fn base64_encode(b: &[u8]) -> (r: String)
    ensures
        r@ == base64_of(b@),
{
    base64::engine::general_purpose::STANDARD.encode(b)
}

/// The lower-case hexadecimal digits.
pub open spec fn hex_digits() -> Seq<char> {
    seq!['0', '1', '2', '3', '4', '5', '6', '7', '8', '9', 'a', 'b', 'c', 'd', 'e', 'f']
}

/// Two lower-case hexadecimal digits per byte, high nibble first.
pub open spec fn hex_of(b: Seq<u8>) -> Seq<char>
    decreases b.len(),
{
    if b.len() == 0 {
        Seq::empty()
    } else {
        hex_of(b.drop_last()) + seq![
            hex_digits()[b.last() as int / 16],
            hex_digits()[b.last() as int % 16],
        ]
    }
}

/// Relies on `hex::encode`: two lower-case digits per byte, in order.
#[verifier::external_body]
fn hex_encode(b: &[u8]) -> (r: String)
    ensures
        r@ == hex_of(b@),
{
    hex::encode(b)
}

/// Relies on serde_json's serialization of a string value.
#[verifier::external_body]
fn json_string(s: &str) -> (r: String)
    ensures
        r@ == json_quoted(s@),
{
    serde_json::Value::from(s).to_string()
}

/// How long a policy stays valid, in seconds.
pub const POLICY_LIFETIME_SECS: i64 = 600;

/// The request-date stamp pattern, `20240501`.
pub const DATE_STAMP_PATTERN: &'static str = "%Y%m%d";

/// The request-time stamp pattern, `20240501T120000Z`.
pub const AMZ_DATE_PATTERN: &'static str = "%Y%m%dT%H%M%SZ";

/// The RFC 3339 text chrono writes for the UTC instant `secs` seconds and
/// `nanos` nanoseconds after the epoch.
pub uninterp spec fn chrono_rfc3339(secs: int, nanos: int) -> Seq<char>;

/// The text chrono writes for the UTC instant `secs` seconds after the epoch
/// under the strftime-style `pattern`.
pub uninterp spec fn chrono_format(secs: int, pattern: Seq<char>) -> Seq<char>;

/// Relies on chrono's `DateTime::from_timestamp` and `to_rfc3339`; `None` where
/// chrono has no date for the instant.
#[verifier::external_body]
fn rfc3339_at(secs: i64, nanos: u32) -> (r: Option<String>)
    ensures
        r is Some ==> r->0@ == chrono_rfc3339(secs as int, nanos as int),
{
    DateTime::from_timestamp(secs, nanos).map(|d| d.to_rfc3339())
}

/// Relies on chrono's `DateTime::from_timestamp` and `format`; `None` where
/// chrono has no date for the instant or cannot write the pattern.
#[verifier::external_body]
fn format_at(secs: i64, pattern: &str) -> (r: Option<String>)
    ensures
        r is Some ==> r->0@ == chrono_format(secs as int, pattern@),
{
    let d = DateTime::from_timestamp(secs, 0)?;
    let mut s = String::new();
    write!(s, "{}", d.format(pattern)).ok().map(|_| s)
}

/// The decimal digits of `n`.
pub open spec fn decimal_of(n: nat) -> Seq<char>
    decreases n,
{
    let d = seq!['0', '1', '2', '3', '4', '5', '6', '7', '8', '9'][(n % 10) as int];
    if n < 10 {
        seq![d]
    } else {
        decimal_of(n / 10).push(d)
    }
}

/// Executable `decimal_of`.
fn decimal(n: u64) -> (r: String)
    ensures
        r@ == decimal_of(n as nat),
    decreases n,
{
    let digits = vec!['0', '1', '2', '3', '4', '5', '6', '7', '8', '9'];
    proof {
        assert(digits@ =~= seq!['0', '1', '2', '3', '4', '5', '6', '7', '8', '9']);
    }
    let d = digits[(n % 10) as usize];
    if n < 10 {
        let mut s = String::new();
        s.push(d);
        proof {
            assert(s@ =~= seq![d]);
        }
        s
    } else {
        let mut s = decimal(n / 10);
        s.push(d);
        s
    }
}

/// `s` without its trailing slashes.
pub open spec fn trim_slashes(s: Seq<char>) -> Seq<char>
    decreases s.len(),
{
    if s.len() > 0 && s.last() == '/' {
        trim_slashes(s.drop_last())
    } else {
        s
    }
}

/// Executable `trim_slashes`.
fn trim_slashes_exec(s: &str) -> (r: String)
    ensures
        r@ == trim_slashes(s@),
{
    let v = chars_of(s);
    let mut n: usize = v.len();
    proof {
        assert(v@.subrange(0, n as int) =~= v@);
    }
    while n > 0 && v[n - 1] == '/'
        invariant
            n <= v.len(),
            trim_slashes(v@) == trim_slashes(v@.subrange(0, n as int)),
        decreases n,
    {
        proof {
            assert(v@.subrange(0, n as int).drop_last() =~= v@.subrange(0, n - 1));
        }
        n = n - 1;
    }
    proof {
        assert(v@.subrange(0, 0) =~= Seq::<char>::empty());
    }
    string_of(&v, 0, n)
}

/// The scope of a credential: `<access>/<date>/<region>/s3/aws4_request`.
pub open spec fn credential_of(access: Seq<char>, date: Seq<char>, region: Seq<char>) -> Seq<char> {
    access + "/"@ + date + "/"@ + region + "/s3/aws4_request"@
}

/// The policy document, as serde_json writes it (keys in sorted order).
pub open spec fn policy_text(
    expiration: Seq<char>,
    bucket: Seq<char>,
    key_prefix: Seq<char>,
    credential: Seq<char>,
    amz_date: Seq<char>,
    max_bytes: nat,
) -> Seq<char> {
    "{\"conditions\":[{\"bucket\":"@ + json_quoted(bucket) + "},[\"starts-with\",\"$key\","@
        + json_quoted(key_prefix) + "],{\"x-amz-algorithm\":\"AWS4-HMAC-SHA256\"},{\"x-amz-credential\":"@
        + json_quoted(credential) + "},{\"x-amz-date\":"@ + json_quoted(amz_date)
        + "},[\"content-length-range\",1,"@ + decimal_of(max_bytes) + "]],\"expiration\":"@
        + json_quoted(expiration) + "}"@
}

/// The signing key of a day, region and service, derived from the secret.
pub open spec fn signing_key_of(secret: Seq<char>, date: Seq<char>, region: Seq<char>) -> Seq<u8> {
    let k_date = hmac_sha256_of(encode_utf8("AWS4"@ + secret), encode_utf8(date));
    let k_region = hmac_sha256_of(k_date, encode_utf8(region));
    let k_service = hmac_sha256_of(k_region, encode_utf8("s3"@));
    hmac_sha256_of(k_service, encode_utf8("aws4_request"@))
}

/// What a policy response holds for the given inputs and clock stamps.
pub open spec fn policy_ok(
    r: PostPolicyResponse,
    access_key: Seq<char>,
    secret_key: Seq<char>,
    bucket: Seq<char>,
    key_prefix: Seq<char>,
    region: Seq<char>,
    endpoint: Seq<char>,
    max_file_mb: nat,
    expiration: Seq<char>,
    date_stamp: Seq<char>,
    amz_date: Seq<char>,
) -> bool {
    let credential = credential_of(access_key, date_stamp, region);
    let policy = base64_of(
        encode_utf8(
            policy_text(expiration, bucket, key_prefix, credential, amz_date, max_file_mb * 1048576),
        ),
    );
    &&& r.url@ == trim_slashes(endpoint) + "/"@ + bucket
    &&& r.fields.key@ == key_prefix + "${filename}"@
    &&& r.fields.policy@ == policy
    &&& r.fields.x_amz_algorithm@ == "AWS4-HMAC-SHA256"@
    &&& r.fields.x_amz_credential@ == credential
    &&& r.fields.x_amz_date@ == amz_date
    &&& r.fields.x_amz_signature@ == hex_of(
        hmac_sha256_of(signing_key_of(secret_key, date_stamp, region), encode_utf8(policy)),
    )
}

/// The HMAC-SHA256 tag of `data` under `key`.
fn sign(key: &Vec<u8>, data: &str) -> (r: Vec<u8>)
    ensures
        r@ == hmac_sha256_of(key@, encode_utf8(data@)),
{
    hmac_sha256(key.as_slice(), data.as_bytes())
}

/// Builds the signed upload fields for the given clock stamps.
pub fn post_policy_at(
    access_key: &str,
    secret_key: &str,
    bucket: &str,
    key_prefix: &str,
    region: &str,
    endpoint: &str,
    max_file_mb: u64,
    expiration: &str,
    date_stamp: &str,
    amz_date: &str,
) -> (r: PostPolicyResponse)
    requires
        max_file_mb * 1048576 <= u64::MAX,
    ensures
        policy_ok(
            r,
            access_key@,
            secret_key@,
            bucket@,
            key_prefix@,
            region@,
            endpoint@,
            max_file_mb as nat,
            expiration@,
            date_stamp@,
            amz_date@,
        ),
{
    let mut credential = String::from_str(access_key);
    credential.append("/");
    credential.append(date_stamp);
    credential.append("/");
    credential.append(region);
    credential.append("/s3/aws4_request");

    let mut policy = String::from_str("{\"conditions\":[{\"bucket\":");
    policy.append(json_string(bucket).as_str());
    policy.append("},[\"starts-with\",\"$key\",");
    policy.append(json_string(key_prefix).as_str());
    policy.append("],{\"x-amz-algorithm\":\"AWS4-HMAC-SHA256\"},{\"x-amz-credential\":");
    policy.append(json_string(credential.as_str()).as_str());
    policy.append("},{\"x-amz-date\":");
    policy.append(json_string(amz_date).as_str());
    policy.append("},[\"content-length-range\",1,");
    policy.append(decimal(max_file_mb * 1048576).as_str());
    policy.append("]],\"expiration\":");
    policy.append(json_string(expiration).as_str());
    policy.append("}");
    let policy_base64 = base64_encode(policy.as_str().as_bytes());

    let mut secret = String::from_str("AWS4");
    secret.append(secret_key);
    let date_key = hmac_sha256(secret.as_str().as_bytes(), date_stamp.as_bytes());
    let date_region_key = sign(&date_key, region);
    let date_region_service_key = sign(&date_region_key, "s3");
    let signing_key = sign(&date_region_service_key, "aws4_request");
    let signature = sign(&signing_key, policy_base64.as_str());

    let mut url = trim_slashes_exec(endpoint);
    url.append("/");
    url.append(bucket);
    let mut key = String::from_str(key_prefix);
    key.append("${filename}");

    PostPolicyResponse {
        url,
        fields: PostPolicyFields {
            key,
            policy: policy_base64,
            x_amz_algorithm: String::from_str("AWS4-HMAC-SHA256"),
            x_amz_credential: credential,
            x_amz_date: String::from_str(amz_date),
            x_amz_signature: hex_encode(signature.as_slice()),
        },
    }
}

/// Builds the signed fields of a browser upload to `bucket`, for keys under
/// `key_prefix` and files of at most `max_file_mb` MiB, valid for
/// `POLICY_LIFETIME_SECS` from now. `None` where the system clock reads before
/// the Unix epoch or chrono cannot date it.
pub fn generate_post_policy(
    access_key: &str,
    secret_key: &str,
    bucket: &str,
    key_prefix: &str,
    region: &str,
    endpoint: &str,
    max_file_mb: u64,
) -> (r: Option<PostPolicyResponse>)
    requires
        max_file_mb * 1048576 <= u64::MAX,
    ensures
        r is Some ==> exists|secs: int, nanos: int|
            #[trigger] policy_ok(
                r->0,
                access_key@,
                secret_key@,
                bucket@,
                key_prefix@,
                region@,
                endpoint@,
                max_file_mb as nat,
                chrono_rfc3339(secs + POLICY_LIFETIME_SECS, nanos),
                chrono_format(secs, DATE_STAMP_PATTERN@),
                chrono_format(secs, AMZ_DATE_PATTERN@),
            ),
{
    let (after_epoch, whole_secs, nanos) = clock_since_epoch();
    if !after_epoch || whole_secs > i64::MAX as u64 {
        return None;
    }
    let now = whole_secs as i64;
    let expiry = match now.checked_add(POLICY_LIFETIME_SECS) {
        Some(t) => t,
        None => return None,
    };
    let expiration = match rfc3339_at(expiry, nanos) {
        Some(t) => t,
        None => return None,
    };
    let date_stamp = match format_at(now, DATE_STAMP_PATTERN) {
        Some(t) => t,
        None => return None,
    };
    let amz_date = match format_at(now, AMZ_DATE_PATTERN) {
        Some(t) => t,
        None => return None,
    };
    let r = post_policy_at(
        access_key,
        secret_key,
        bucket,
        key_prefix,
        region,
        endpoint,
        max_file_mb,
        expiration.as_str(),
        date_stamp.as_str(),
        amz_date.as_str(),
    );
    let ghost secs = now as int;
    let ghost ns = nanos as int;
    assert(expiry as int == secs + POLICY_LIFETIME_SECS);
    proof {
        assert(policy_ok(
            Some(r)->0,
            access_key@,
            secret_key@,
            bucket@,
            key_prefix@,
            region@,
            endpoint@,
            max_file_mb as nat,
            chrono_rfc3339(secs + POLICY_LIFETIME_SECS, ns),
            chrono_format(secs, DATE_STAMP_PATTERN@),
            chrono_format(secs, AMZ_DATE_PATTERN@),
        ));
    }
    Some(r)
}

} // verus!
