//! Payloads of real-world message shapes: a gRPC health check, an etcd
//! raft append, an OpenTelemetry metrics batch and a Prometheus remote
//! write batch. Each is written field by field in ascending field number
//! order, as the protobuf encoding lays a message out; a nested message
//! is a length-delimited record of its own encoding, and a field at its
//! proto3 default (zero, empty) is left out.

use vstd::prelude::*;
use vstd::string::StringSliceAdditionalSpecFns;
use crate::wire::{
    lemma_pow2_adds, lemma_pow2_pos, spec_pow2, encode_bool, encode_bytes, encode_fixed64, encode_int32, encode_int64, encode_string, encode_uint64,
    spec_fixed64_field, spec_i64_bits, spec_len_field, spec_utf8, spec_varint_field,
};

verus! {

/// A string field's record: its UTF-8 bytes, length-delimited.
pub open spec fn spec_string_field(tag: nat, s: Seq<char>) -> Seq<u8> {
    spec_len_field(tag, spec_utf8(s))
}

/// An OpenTelemetry `KeyValue` whose value is an `AnyValue` string.
pub open spec fn spec_key_value(key: Seq<char>, value: Seq<char>) -> Seq<u8> {
    spec_string_field(1, key) + spec_len_field(2, spec_string_field(1, value))
}

/// `grpc.health.v1.HealthCheckRequest { service: "cart.service" }`.
pub open spec fn spec_health_request() -> Seq<u8> {
    spec_string_field(1, "cart.service"@)
}

/// `grpc.health.v1.HealthCheckResponse { status: SERVING }` (`SERVING` is 1).
pub open spec fn spec_health_response() -> Seq<u8> {
    spec_varint_field(1, 1)
}

/// A `raftpb.Entry` of term 7 (its type is left unset).
pub open spec fn spec_raft_entry(index: nat, data: Seq<char>) -> Seq<u8> {
    spec_varint_field(2, 7) + spec_varint_field(3, index) + spec_len_field(4, spec_utf8(data))
}

/// A `raftpb.Message` of type `MsgApp` (3) from node 1 to node 2 carrying
/// two entries.
pub open spec fn spec_raft_message() -> Seq<u8> {
    spec_varint_field(1, 3) + spec_varint_field(2, 2) + spec_varint_field(3, 1) + spec_varint_field(
        4,
        7,
    ) + spec_varint_field(5, 6) + spec_varint_field(6, 1024) + spec_len_field(
        7,
        spec_raft_entry(1025, "set key=value"@),
    ) + spec_len_field(7, spec_raft_entry(1026, "delete key"@)) + spec_varint_field(8, 1026)
}

/// The IEEE-754 binary64 bit pattern of the double 0.042.
pub const OTEL_POINT_VALUE_BITS: u64 = 0x3FA5_8106_24DD_2F1B;

/// The resource of the OpenTelemetry batch: three attributes.
pub open spec fn spec_otel_resource() -> Seq<u8> {
    spec_len_field(1, spec_key_value("service.name"@, "checkout"@)) + spec_len_field(
        1,
        spec_key_value("deployment.environment"@, "prod"@),
    ) + spec_len_field(1, spec_key_value("http.route"@, "/api/v1/orders"@))
}

/// The `NumberDataPoint`: start and end times, the double value, one
/// attribute.
pub open spec fn spec_otel_point() -> Seq<u8> {
    spec_fixed64_field(2, 1_699_990_000_000_000_000) + spec_fixed64_field(
        3,
        1_700_000_000_000_000_000,
    ) + spec_fixed64_field(4, OTEL_POINT_VALUE_BITS) + spec_len_field(
        7,
        spec_key_value("http.status_code"@, "200"@),
    )
}

/// The `Sum`: one point, cumulative (2), monotonic.
pub open spec fn spec_otel_sum() -> Seq<u8> {
    spec_len_field(1, spec_otel_point()) + spec_varint_field(2, 2) + spec_varint_field(3, 1)
}

/// The `Metric` holding the sum.
pub open spec fn spec_otel_metric() -> Seq<u8> {
    spec_string_field(1, "http.server.duration"@) + spec_string_field(2, "per-request latency"@)
        + spec_string_field(3, "s"@) + spec_len_field(7, spec_otel_sum())
}

/// The `InstrumentationScope`: name, version and one attribute.
pub open spec fn spec_otel_scope() -> Seq<u8> {
    spec_string_field(1, "tier1.http"@) + spec_string_field(2, "1.0.0"@) + spec_len_field(
        3,
        spec_key_value("schema"@, "semconv"@),
    )
}

/// The `ResourceMetrics`: the resource, then one `ScopeMetrics` of the
/// scope and the metric.
pub open spec fn spec_otel_metrics() -> Seq<u8> {
    spec_len_field(1, spec_otel_resource()) + spec_len_field(
        2,
        spec_len_field(1, spec_otel_scope()) + spec_len_field(2, spec_otel_metric()),
    )
}

/// The exponent of the largest power of two not above `n`.
pub open spec fn spec_log2(n: nat) -> nat
    decreases n,
{
    if n < 2 {
        0
    } else {
        1 + spec_log2(n / 2)
    }
}

/// The IEEE-754 binary64 bit pattern of the double `n / 2`: zero for zero,
/// else sign 0, biased exponent `1022 + p` and fraction
/// `(n - 2^p) * 2^(52 - p)`, where `2^p` is the largest power of two not
/// above `n` (so `n / 2 = 2^(p - 1) * (1 + fraction / 2^52)`).
pub open spec fn spec_half_bits(n: nat) -> nat {
    if n == 0 {
        0
    } else {
        let p = spec_log2(n);
        ((1022 + p) * spec_pow2(52) + (n - spec_pow2(p)) * spec_pow2((52 - p) as nat)) as nat
    }
}

/// A Prometheus `Sample` of value `n / 2` at `timestamp` (a zero value is
/// left out).
pub open spec fn spec_sample(n: nat, timestamp: nat) -> Seq<u8> {
    (if n == 0 {
        Seq::empty()
    } else {
        spec_fixed64_field(1, spec_half_bits(n) as u64)
    }) + spec_varint_field(2, timestamp)
}

/// The first `k` samples of series `i`: sample `s` has value
/// `(1000 i + s) / 2` and timestamp `1_700_000_000_000 + 15_000 s`.
pub open spec fn spec_samples(i: nat, k: nat) -> Seq<u8>
    decreases k,
{
    if k == 0 {
        Seq::empty()
    } else {
        let s = (k - 1) as nat;
        spec_samples(i, s) + spec_len_field(2, spec_sample(1000 * i + s, 1_700_000_000_000 + 15_000 * s))
    }
}

/// A Prometheus `Label`.
pub open spec fn spec_label(name: Seq<u8>, value: Seq<u8>) -> Seq<u8> {
    spec_len_field(1, name) + spec_len_field(2, value)
}

/// `host-NNN:9100`, `NNN` the three decimal digits of `i`.
pub open spec fn spec_instance(i: nat) -> Seq<u8> {
    spec_utf8("host-"@) + seq![
        (48 + i / 100 % 10) as u8,
        (48 + i / 10 % 10) as u8,
        (48 + i % 10) as u8,
    ] + spec_utf8(":9100"@)
}

/// Series `i`: its three labels, then its thirty samples.
pub open spec fn spec_series(i: nat) -> Seq<u8> {
    spec_len_field(1, spec_label(spec_utf8("__name__"@), spec_utf8("http_requests_total{}"@)))
        + spec_len_field(1, spec_label(spec_utf8("instance"@), spec_instance(i))) + spec_len_field(
        1,
        spec_label(spec_utf8("job"@), spec_utf8("gateway"@)),
    ) + spec_samples(i, 30)
}

/// The first `k` series of the remote write request.
pub open spec fn spec_write_request(k: nat) -> Seq<u8>
    decreases k,
{
    if k == 0 {
        Seq::empty()
    } else {
        spec_write_request((k - 1) as nat) + spec_len_field(1, spec_series((k - 1) as nat))
    }
}

/// Appends a string field's record.
fn put_string(tag: u32, s: &str, buf: &mut Vec<u8>)
    requires
        1 <= tag <= 536_870_911,
    ensures
        final(buf)@ == old(buf)@ + spec_string_field(tag as nat, s@),
{
    let owned = s.to_owned();
    encode_string(tag, &owned, buf);
}

/// Appends a nested message's record: its bytes, length-delimited.
fn put_message(tag: u32, message: &Vec<u8>, buf: &mut Vec<u8>)
    requires
        1 <= tag <= 536_870_911,
    ensures
        final(buf)@ == old(buf)@ + spec_len_field(tag as nat, message@),
{
    encode_bytes(tag, message, buf);
}

/// The bytes of a string.
fn str_to_bytes(s: &str) -> (r: Vec<u8>)
    ensures
        r@ == spec_utf8(s@),
{
    vstd::slice::slice_to_vec(s.as_bytes())
}

/// The bytes of an OpenTelemetry string `KeyValue`.
fn key_value(key: &str, value: &str) -> (r: Vec<u8>)
    ensures
        r@ == spec_key_value(key@, value@),
{
    let mut any_value: Vec<u8> = Vec::new();
    put_string(1, value, &mut any_value);
    let mut buf: Vec<u8> = Vec::new();
    put_string(1, key, &mut buf);
    put_message(2, &any_value, &mut buf);
    buf
}

/// The encoded `grpc.health.v1.HealthCheckRequest` for `cart.service`.
pub fn health_request_bytes() -> (r: Vec<u8>)
    ensures
        r@ == spec_health_request(),
{
    let mut buf: Vec<u8> = Vec::new();
    put_string(1, "cart.service", &mut buf);
    buf
}

/// The encoded `grpc.health.v1.HealthCheckResponse` with status `SERVING`.
pub fn health_response_bytes() -> (r: Vec<u8>)
    ensures
        r@ == spec_health_response(),
{
    let mut buf: Vec<u8> = Vec::new();
    encode_int32(1, 1, &mut buf);
    buf
}

/// The bytes of a raft entry of term 7.
fn raft_entry(index: u64, data: &str) -> (r: Vec<u8>)
    ensures
        r@ == spec_raft_entry(index as nat, data@),
{
    let mut buf: Vec<u8> = Vec::new();
    encode_uint64(2, 7, &mut buf);
    encode_uint64(3, index, &mut buf);
    let bytes = str_to_bytes(data);
    encode_bytes(4, &bytes, &mut buf);
    buf
}

/// The encoded `raftpb.Message`: a `MsgApp` from node 1 to node 2 at term
/// 7 with two entries.
pub fn raft_message_bytes() -> (r: Vec<u8>)
    ensures
        r@ == spec_raft_message(),
{
    let mut buf: Vec<u8> = Vec::new();
    encode_int32(1, 3, &mut buf);
    encode_uint64(2, 2, &mut buf);
    encode_uint64(3, 1, &mut buf);
    encode_uint64(4, 7, &mut buf);
    encode_uint64(5, 6, &mut buf);
    encode_uint64(6, 1024, &mut buf);
    let first = raft_entry(1025, "set key=value");
    put_message(7, &first, &mut buf);
    let second = raft_entry(1026, "delete key");
    put_message(7, &second, &mut buf);
    encode_uint64(8, 1026, &mut buf);
    buf
}

/// The encoded `opentelemetry.proto.metrics.v1.ResourceMetrics`: a
/// resource of three attributes and one scope holding one monotonic
/// cumulative sum with one point.
pub fn otel_metrics_bytes() -> (r: Vec<u8>)
    ensures
        r@ == spec_otel_metrics(),
{
    let mut resource: Vec<u8> = Vec::new();
    let attribute = key_value("service.name", "checkout");
    put_message(1, &attribute, &mut resource);
    let attribute = key_value("deployment.environment", "prod");
    put_message(1, &attribute, &mut resource);
    let attribute = key_value("http.route", "/api/v1/orders");
    put_message(1, &attribute, &mut resource);

    let mut point: Vec<u8> = Vec::new();
    encode_fixed64(2, 1_699_990_000_000_000_000, &mut point);
    encode_fixed64(3, 1_700_000_000_000_000_000, &mut point);
    encode_fixed64(4, OTEL_POINT_VALUE_BITS, &mut point);
    let attribute = key_value("http.status_code", "200");
    put_message(7, &attribute, &mut point);

    let mut sum: Vec<u8> = Vec::new();
    put_message(1, &point, &mut sum);
    encode_int32(2, 2, &mut sum);
    encode_bool(3, true, &mut sum);

    let mut metric: Vec<u8> = Vec::new();
    put_string(1, "http.server.duration", &mut metric);
    put_string(2, "per-request latency", &mut metric);
    put_string(3, "s", &mut metric);
    put_message(7, &sum, &mut metric);

    let mut scope: Vec<u8> = Vec::new();
    put_string(1, "tier1.http", &mut scope);
    put_string(2, "1.0.0", &mut scope);
    let attribute = key_value("schema", "semconv");
    put_message(3, &attribute, &mut scope);

    let mut scope_metrics: Vec<u8> = Vec::new();
    put_message(1, &scope, &mut scope_metrics);
    put_message(2, &metric, &mut scope_metrics);

    let mut buf: Vec<u8> = Vec::new();
    put_message(1, &resource, &mut buf);
    put_message(2, &scope_metrics, &mut buf);
    buf
}

proof fn lemma_pow2_26()
    ensures
        spec_pow2(26) == 0x400_0000,
{
    reveal_with_fuel(spec_pow2, 27);
}

/// The powers of two the double layout uses.
proof fn lemma_pow2_constants()
    ensures
        spec_pow2(20) == 0x10_0000,
        spec_pow2(52) == 0x10_0000_0000_0000,
{
    lemma_pow2_26();
    lemma_pow2_adds(26, 26);
    assert(spec_pow2(20) == 0x10_0000) by {
        reveal_with_fuel(spec_pow2, 21);
    }
}

/// `2^p` is the largest power of two not above `n` exactly when
/// `2^p <= n < 2^(p + 1)`.
proof fn lemma_log2(n: nat, p: nat)
    requires
        spec_pow2(p) <= n < 2 * spec_pow2(p),
    ensures
        spec_log2(n) == p,
    decreases p,
{
    if p > 0 {
        let q = (p - 1) as nat;
        lemma_pow2_pos(q);
        assert(spec_pow2(q) <= n / 2 < 2 * spec_pow2(q)) by (nonlinear_arith)
            requires
                spec_pow2(p) == 2 * spec_pow2(q),
                spec_pow2(p) <= n < 2 * spec_pow2(p),
        ;
        lemma_log2(n / 2, q);
    }
}

/// The bit pattern of the double `n / 2`, computed with integer
/// arithmetic.
fn half_as_double_bits(n: u64) -> (r: u64)
    requires
        n < 0x10_0000,
    ensures
        r == spec_half_bits(n as nat),
{
    if n == 0 {
        return 0;
    }
    proof {
        lemma_pow2_constants();
    }
    let mut p: u64 = 0;
    let mut power: u64 = 1;
    while power <= n / 2
        invariant
            1 <= n < 0x10_0000,
            power == spec_pow2(p as nat),
            1 <= power <= n,
            p < power,
            spec_pow2(20) == 0x10_0000,
        decreases n - power,
    {
        power = power * 2;
        p = p + 1;
    }
    proof {
        lemma_log2(n as nat, p as nat);
        if p > 20 {
            lemma_pow2_adds(20, (p - 20) as nat);
            lemma_pow2_pos((p - 20) as nat);
            assert(false) by (nonlinear_arith)
                requires
                    spec_pow2(20) * spec_pow2((p - 20) as nat) == power,
                    spec_pow2(20) == 0x10_0000,
                    spec_pow2((p - 20) as nat) >= 1,
                    power <= n,
                    n < 0x10_0000,
            ;
        }
        lemma_pow2_adds(p as nat, (52 - p) as nat);
        lemma_pow2_pos((52 - p) as nat);
    }
    let scale = 0x10_0000_0000_0000u64 / power;
    proof {
        assert(scale == spec_pow2((52 - p) as nat)) by (nonlinear_arith)
            requires
                scale == 0x10_0000_0000_0000u64 / power,
                power * spec_pow2((52 - p) as nat) == 0x10_0000_0000_0000,
                power > 0,
        ;
        assert((n - power) * scale < 0x10_0000_0000_0000) by (nonlinear_arith)
            requires
                n - power < power,
                power * scale == 0x10_0000_0000_0000,
                scale >= 1,
        ;
    }
    (1022 + p) * 0x10_0000_0000_0000 + (n - power) * scale
}

/// The bytes of a Prometheus `Sample` of value `n / 2`.
fn sample(n: u64, timestamp: i64) -> (r: Vec<u8>)
    requires
        n < 0x10_0000,
        timestamp >= 0,
    ensures
        r@ == spec_sample(n as nat, timestamp as nat),
{
    let mut buf: Vec<u8> = Vec::new();
    if n != 0 {
        let bits = half_as_double_bits(n);
        encode_fixed64(1, bits, &mut buf);
    }
    encode_int64(2, timestamp, &mut buf);
    proof {
        assert(spec_i64_bits(timestamp as int) == timestamp as nat);
    }
    buf
}

/// The bytes of a Prometheus `Label`.
fn label(name: &Vec<u8>, value: &Vec<u8>) -> (r: Vec<u8>)
    ensures
        r@ == spec_label(name@, value@),
{
    let mut buf: Vec<u8> = Vec::new();
    put_message(1, name, &mut buf);
    put_message(2, value, &mut buf);
    buf
}

/// `host-NNN:9100` for series `i`.
fn instance(i: u64) -> (r: Vec<u8>)
    requires
        i < 1000,
    ensures
        r@ == spec_instance(i as nat),
{
    let mut buf = str_to_bytes("host-");
    buf.push((48 + i / 100 % 10) as u8);
    buf.push((48 + i / 10 % 10) as u8);
    buf.push((48 + i % 10) as u8);
    let mut tail = str_to_bytes(":9100");
    buf.append(&mut tail);
    buf
}

/// The bytes of series `i`.
fn series(i: u64) -> (r: Vec<u8>)
    requires
        i < 40,
    ensures
        r@ == spec_series(i as nat),
{
    let mut buf: Vec<u8> = Vec::new();
    let name = str_to_bytes("__name__");
    let value = str_to_bytes("http_requests_total{}");
    let l = label(&name, &value);
    put_message(1, &l, &mut buf);
    let name = str_to_bytes("instance");
    let value = instance(i);
    let l = label(&name, &value);
    put_message(1, &l, &mut buf);
    let name = str_to_bytes("job");
    let value = str_to_bytes("gateway");
    let l = label(&name, &value);
    put_message(1, &l, &mut buf);
    let ghost labels = buf@;
    let mut s: u64 = 0;
    while s < 30
        invariant
            i < 40,
            s <= 30,
            buf@ == labels + spec_samples(i as nat, s as nat),
        decreases 30 - s,
    {
        let point = sample(i * 1000 + s, (1_700_000_000_000 + s * 15_000) as i64);
        put_message(2, &point, &mut buf);
        proof {
            assert(spec_samples(i as nat, (s + 1) as nat) == spec_samples(i as nat, s as nat) + spec_len_field(
                2,
                spec_sample((1000 * i + s) as nat, (1_700_000_000_000 + 15_000 * s) as nat),
            ));
        }
        s = s + 1;
    }
    buf
}

/// The encoded `prometheus.WriteRequest`: 40 series of three labels
/// (`__name__`, `instance`, `job`) and 30 samples each.
pub fn prometheus_remote_write_bytes() -> (r: Vec<u8>)
    ensures
        r@ == spec_write_request(40),
{
    let mut buf: Vec<u8> = Vec::new();
    let mut i: u64 = 0;
    while i < 40
        invariant
            i <= 40,
            buf@ == spec_write_request(i as nat),
        decreases 40 - i,
    {
        let one = series(i);
        put_message(1, &one, &mut buf);
        i = i + 1;
    }
    buf
}

} // verus!
