use prost_reflect::{
    health_request_bytes, health_response_bytes, otel_metrics_bytes, prometheus_remote_write_bytes,
    raft_message_bytes,
};

fn varint(mut n: u64, out: &mut Vec<u8>) {
    loop {
        let mut b = (n & 0x7f) as u8;
        n >>= 7;
        if n != 0 {
            b |= 0x80;
        }
        out.push(b);
        if n == 0 {
            break;
        }
    }
}

fn key(tag: u64, wire_type: u64, out: &mut Vec<u8>) {
    varint(tag << 3 | wire_type, out);
}

fn varint_field(tag: u64, v: u64, out: &mut Vec<u8>) {
    key(tag, 0, out);
    varint(v, out);
}

fn fixed64_field(tag: u64, v: u64, out: &mut Vec<u8>) {
    key(tag, 1, out);
    out.extend_from_slice(&v.to_le_bytes());
}

fn len_field(tag: u64, data: &[u8], out: &mut Vec<u8>) {
    key(tag, 2, out);
    varint(data.len() as u64, out);
    out.extend_from_slice(data);
}

fn key_value(k: &str, v: &str) -> Vec<u8> {
    let mut any = Vec::new();
    len_field(1, v.as_bytes(), &mut any);
    let mut out = Vec::new();
    len_field(1, k.as_bytes(), &mut out);
    len_field(2, &any, &mut out);
    out
}

#[test]
fn health_request_is_one_string_field() {
    let mut expected = vec![0x0a, 12];
    expected.extend_from_slice(b"cart.service");
    assert_eq!(health_request_bytes(), expected);
}

#[test]
fn health_response_is_serving() {
    assert_eq!(health_response_bytes(), vec![0x08, 0x01]);
}

#[test]
fn raft_message_layout() {
    let entry = |index: u64, data: &[u8]| {
        let mut e = Vec::new();
        varint_field(2, 7, &mut e);
        varint_field(3, index, &mut e);
        len_field(4, data, &mut e);
        e
    };
    let mut expected = Vec::new();
    varint_field(1, 3, &mut expected);
    varint_field(2, 2, &mut expected);
    varint_field(3, 1, &mut expected);
    varint_field(4, 7, &mut expected);
    varint_field(5, 6, &mut expected);
    varint_field(6, 1024, &mut expected);
    len_field(7, &entry(1025, b"set key=value"), &mut expected);
    len_field(7, &entry(1026, b"delete key"), &mut expected);
    varint_field(8, 1026, &mut expected);
    assert_eq!(raft_message_bytes(), expected);
}

#[test]
fn otel_metrics_layout() {
    let mut resource = Vec::new();
    len_field(1, &key_value("service.name", "checkout"), &mut resource);
    len_field(1, &key_value("deployment.environment", "prod"), &mut resource);
    len_field(1, &key_value("http.route", "/api/v1/orders"), &mut resource);
    let mut point = Vec::new();
    fixed64_field(2, 1_699_990_000_000_000_000, &mut point);
    fixed64_field(3, 1_700_000_000_000_000_000, &mut point);
    fixed64_field(4, 0.042f64.to_bits(), &mut point);
    len_field(7, &key_value("http.status_code", "200"), &mut point);
    let mut sum = Vec::new();
    len_field(1, &point, &mut sum);
    varint_field(2, 2, &mut sum);
    varint_field(3, 1, &mut sum);
    let mut metric = Vec::new();
    len_field(1, b"http.server.duration", &mut metric);
    len_field(2, b"per-request latency", &mut metric);
    len_field(3, b"s", &mut metric);
    len_field(7, &sum, &mut metric);
    let mut scope = Vec::new();
    len_field(1, b"tier1.http", &mut scope);
    len_field(2, b"1.0.0", &mut scope);
    len_field(3, &key_value("schema", "semconv"), &mut scope);
    let mut scope_metrics = Vec::new();
    len_field(1, &scope, &mut scope_metrics);
    len_field(2, &metric, &mut scope_metrics);
    let mut expected = Vec::new();
    len_field(1, &resource, &mut expected);
    len_field(2, &scope_metrics, &mut expected);
    assert_eq!(otel_metrics_bytes(), expected);
}

#[test]
fn prometheus_remote_write_layout() {
    let label = |name: &str, value: &str| {
        let mut l = Vec::new();
        len_field(1, name.as_bytes(), &mut l);
        len_field(2, value.as_bytes(), &mut l);
        l
    };
    let mut expected = Vec::new();
    for i in 0..40i64 {
        let mut series = Vec::new();
        len_field(1, &label("__name__", "http_requests_total{}"), &mut series);
        len_field(1, &label("instance", &format!("host-{i:03}:9100")), &mut series);
        len_field(1, &label("job", "gateway"), &mut series);
        for s in 0..30i64 {
            let value = (i * 1000 + s) as f64 * 0.5;
            let mut sample = Vec::new();
            if value != 0.0 {
                fixed64_field(1, value.to_bits(), &mut sample);
            }
            varint_field(2, (1_700_000_000_000 + s * 15_000) as u64, &mut sample);
            len_field(2, &sample, &mut series);
        }
        len_field(1, &series, &mut expected);
    }
    assert_eq!(prometheus_remote_write_bytes(), expected);
}
