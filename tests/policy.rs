use base64::Engine;
use hmac::{Hmac, Mac};
use serde_json::Value;
use sha2::Sha256;
use toolcraft::policy::{generate_post_policy, post_policy_at, POLICY_LIFETIME_SECS};

fn mac(key: &[u8], data: &[u8]) -> Vec<u8> {
    let mut m = Hmac::<Sha256>::new_from_slice(key).unwrap();
    m.update(data);
    m.finalize().into_bytes().to_vec()
}

fn expected_policy(exp: &str, bucket: &str, prefix: &str, cred: &str, date: &str, max: u64) -> String {
    let one = |k: &str, v: Value| {
        let mut m = serde_json::Map::new();
        m.insert(k.to_string(), v);
        Value::Object(m)
    };
    let conditions = Value::Array(vec![
        one("bucket", Value::from(bucket)),
        Value::Array(vec![Value::from("starts-with"), Value::from("$key"), Value::from(prefix)]),
        one("x-amz-algorithm", Value::from("AWS4-HMAC-SHA256")),
        one("x-amz-credential", Value::from(cred)),
        one("x-amz-date", Value::from(date)),
        Value::Array(vec![Value::from("content-length-range"), Value::from(1), Value::from(max)]),
    ]);
    let mut root = serde_json::Map::new();
    root.insert("expiration".to_string(), Value::from(exp));
    root.insert("conditions".to_string(), conditions);
    Value::Object(root).to_string()
}

#[test]
fn policy_fields_match_independent_signing() {
    let exp = "2024-05-01T12:10:00+00:00";
    let r = post_policy_at(
        "ROOTNAME", "secret_key", "bucket_name", "key_prefix/", "local_region",
        "http://127.0.0.1:9000/", 10, exp, "20240501", "20240501T120000Z",
    );
    let cred = "ROOTNAME/20240501/local_region/s3/aws4_request";
    let policy = expected_policy(exp, "bucket_name", "key_prefix/", cred, "20240501T120000Z", 10 * 1024 * 1024);
    let policy_b64 = base64::engine::general_purpose::STANDARD.encode(policy.as_bytes());
    let k1 = mac(b"AWS4secret_key", b"20240501");
    let k2 = mac(&k1, b"local_region");
    let k3 = mac(&k2, b"s3");
    let k4 = mac(&k3, b"aws4_request");
    let sig = hex::encode(mac(&k4, policy_b64.as_bytes()));

    assert_eq!(r.url, "http://127.0.0.1:9000/bucket_name");
    assert_eq!(r.fields.key, "key_prefix/${filename}");
    assert_eq!(r.fields.policy, policy_b64);
    assert_eq!(r.fields.x_amz_algorithm, "AWS4-HMAC-SHA256");
    assert_eq!(r.fields.x_amz_credential, cred);
    assert_eq!(r.fields.x_amz_date, "20240501T120000Z");
    assert_eq!(r.fields.x_amz_signature, sig);
    assert_eq!(r.fields.x_amz_signature.len(), 64);
}

#[test]
fn policy_document_text() {
    let r = post_policy_at("a", "s", "b\"q", "p", "r", "e", 1, "x", "d", "t");
    let text = String::from_utf8(base64::engine::general_purpose::STANDARD.decode(&r.fields.policy).unwrap()).unwrap();
    assert_eq!(
        text,
        r#"{"conditions":[{"bucket":"b\"q"},["starts-with","$key","p"],{"x-amz-algorithm":"AWS4-HMAC-SHA256"},{"x-amz-credential":"a/d/r/s3/aws4_request"},{"x-amz-date":"t"},["content-length-range",1,1048576]],"expiration":"x"}"#
    );
}

#[test]
fn policy_url_trims_every_trailing_slash() {
    let r = post_policy_at("a", "s", "b", "p", "r", "http://host///", 0, "x", "d", "t");
    assert_eq!(r.url, "http://host/b");
    let r = post_policy_at("a", "s", "b", "p", "r", "", 0, "x", "d", "t");
    assert_eq!(r.url, "/b");
}

#[test]
fn signature_depends_on_secret() {
    let a = post_policy_at("a", "s1", "b", "p", "r", "e", 1, "x", "d", "t");
    let b = post_policy_at("a", "s2", "b", "p", "r", "e", 1, "x", "d", "t");
    assert_eq!(a.fields.policy, b.fields.policy);
    assert_ne!(a.fields.x_amz_signature, b.fields.x_amz_signature);
}

#[test]
fn policy_now_uses_current_date() {
    let r = generate_post_policy("ROOTNAME", "secret_key", "bucket_name", "key_prefix/", "local_region", "http://127.0.0.1:9000", 10).unwrap();
    assert_eq!(r.fields.x_amz_date.len(), 16);
    assert!(r.fields.x_amz_credential.starts_with("ROOTNAME/20"));
    assert!(r.fields.x_amz_credential.ends_with("/local_region/s3/aws4_request"));
    assert_eq!(r.url, "http://127.0.0.1:9000/bucket_name");
}

#[test]
fn policy_expires_ten_minutes_on() {
    assert_eq!(POLICY_LIFETIME_SECS, 600);
    let r = generate_post_policy("a", "s", "b", "p", "r", "e", 1).unwrap();
    let text = String::from_utf8(base64::engine::general_purpose::STANDARD.decode(&r.fields.policy).unwrap()).unwrap();
    let v: Value = serde_json::from_str(&text).unwrap();
    let exp = chrono::DateTime::parse_from_rfc3339(v["expiration"].as_str().unwrap()).unwrap();
    let date = chrono::NaiveDateTime::parse_from_str(&r.fields.x_amz_date, "%Y%m%dT%H%M%SZ").unwrap();
    let delta = exp.naive_utc() - date;
    assert!(delta >= chrono::Duration::seconds(600) && delta < chrono::Duration::seconds(601));
}
