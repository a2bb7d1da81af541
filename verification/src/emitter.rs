//! The emitter: defaults template, app namespace, destination, and the
//! two-state connection the payloads are handed to.
//!
//! Emission itself is pure: it turns a point into a [`EmitPlan`], either
//! the framed bytes to put on the wire together with the parsed
//! destination, or the reason the point is dropped. The caller performs
//! the wire work and reports each outcome back through
//! [`Emitter::on_dial_result`] and [`Emitter::on_send_result`]; it must
//! send only while [`Emitter::is_connected`] says so. Failures are never
//! surfaced to the code that emits: a point is delivered at most once or
//! silently lost.

use vstd::prelude::*;
use vstd::string::StringExecFns;

use crate::clock::now_millis;
use crate::dest::Destination;
use crate::dest::Transport;
use crate::dest::parse_dest;
use crate::dest::parse_destination;
use crate::dest::rewrite_scheme;
use crate::dest::spec_rewrite_scheme;
use crate::json::encode_point;
use crate::json::json_point;
use crate::point::Point;
use crate::point::entries_of;
use crate::point::lemma_entries_of;
use crate::point::merge;
use crate::value::Value;
use crate::value::ValueView;

verus! {

/// Why a point was dropped instead of sent.
///
/// Historical revisions of this design disagree on a point without a name:
/// some fail hard, later ones decline to send. Here the validation step
/// names the reason, and emission drops the point silently.
#[derive(Clone, Copy, Debug, PartialEq, Eq, Structural)]
pub enum EmitError {
    /// The merged point carries no `name` field.
    MissingName,
    /// The merged point's `name` field is not text.
    NameNotText,
    /// The stored destination is absent or unreadable.
    BadDestination,
}

/// What one emission asks of the wire: nothing, or one payload to one
/// destination.
#[derive(Debug)]
pub enum EmitPlan {
    /// The point is discarded; nothing reaches the wire.
    Drop(EmitError),
    /// The framed payload to deliver, and where.
    Send(Destination, Vec<u8>),
}

/// The connection is a two-state machine: it holds a usable transport
/// handle, or it does not.
#[derive(Clone, Copy, Debug, PartialEq, Eq, Structural)]
pub enum ConnState {
    Disconnected,
    Connected,
}

/// What a dial attempt leaves the connection in.
pub open spec fn state_after_dial(ok: bool) -> ConnState {
    if ok {
        ConnState::Connected
    } else {
        ConnState::Disconnected
    }
}

/// What a send attempt leaves the connection in: a failed write discards
/// the handle, so the next attempt re-resolves and reconnects.
pub open spec fn state_after_send(s: ConnState, ok: bool) -> ConnState {
    if ok {
        s
    } else {
        ConnState::Disconnected
    }
}

/// One wire outcome reported back to the connection.
pub enum ConnEvent {
    Dial(bool),
    Send(bool),
}

/// One step of the connection machine.
pub open spec fn next_conn(s: ConnState, e: ConnEvent) -> ConnState {
    match e {
        ConnEvent::Dial(ok) => state_after_dial(ok),
        ConnEvent::Send(ok) => state_after_send(s, ok),
    }
}

/// The connection after a run of reported outcomes.
pub open spec fn run_conn(s: ConnState, evs: Seq<ConnEvent>) -> ConnState
    decreases evs.len(),
{
    if evs.len() == 0 {
        s
    } else {
        run_conn(next_conn(s, evs[0]), evs.drop_first())
    }
}

/// The app namespace an app name yields: the name and a separating dot,
/// or nothing when the name is empty.
pub open spec fn spec_namespace(app: Seq<char>) -> Seq<char> {
    if app.len() == 0 {
        Seq::<char>::empty()
    } else {
        app + "."@
    }
}

/// What emission derives from a merged point: the point without its
/// `name` is invalid; otherwise the name is namespaced, and `value` and
/// `time` are filled in when absent.
pub open spec fn derive_fields(m: Map<Seq<char>, ValueView>, ns: Seq<char>, now: int) -> Result<
    Map<Seq<char>, ValueView>,
    EmitError,
> {
    if !m.dom().contains("name"@) {
        Err(EmitError::MissingName)
    } else {
        match m["name"@] {
            ValueView::Text(n) => {
                let m1 = m.insert("name"@, ValueView::Text(ns + n));
                let m2 = if m1.dom().contains("value"@) {
                    m1
                } else {
                    m1.insert("value"@, ValueView::Int(1))
                };
                let m3 = if m2.dom().contains("time"@) {
                    m2
                } else {
                    m2.insert("time"@, ValueView::Int(now))
                };
                Ok(m3)
            },
            _ => Err(EmitError::NameNotText),
        }
    }
}

/// How a payload is framed for a transport: one line per point on a
/// stream, the bare object as an HTTP body.
pub open spec fn frame_bytes(t: Transport, j: Seq<u8>) -> Seq<u8> {
    if t == Transport::Stream {
        j + seq![10u8]
    } else {
        j
    }
}

/// Frames an encoded point for a transport.
pub fn frame_payload(t: Transport, json: Vec<u8>) -> (r: Vec<u8>)
    ensures
        r@ == frame_bytes(t, json@),
{
    match t {
        Transport::Stream => {
            let mut j = json;
            j.push(10);
            j
        },
        Transport::Http => json,
    }
}

/// A metrics emitter: a defaults template, an app namespace, a stored
/// destination, and the connection state.
#[derive(Debug)]
pub struct Emitter {
    defaults: Point,
    app: String,
    target: String,
    conn: ConnState,
}

impl Emitter {
    /// The fields merged into every emitted point.
    pub closed spec fn defaults_map(&self) -> Map<Seq<char>, ValueView> {
        self.defaults.as_map()
    }

    /// The prefix put before every emitted name.
    pub closed spec fn app_ns(&self) -> Seq<char> {
        self.app@
    }

    /// The stored destination address, as written (after scheme rewriting).
    pub closed spec fn target_chars(&self) -> Seq<char> {
        self.target@
    }

    /// The connection state.
    pub closed spec fn conn_state(&self) -> ConnState {
        self.conn
    }

    /// The stored destination, parsed.
    pub open spec fn target_dest(&self) -> Option<crate::dest::DestView> {
        parse_dest(vstd::utf8::encode_utf8(self.target_chars()))
    }
}

/// How a plan relates to the emitter and the point it was made from:
/// exactly the outcome of [`derive_fields`] on the merged point, encoded
/// and framed for the stored destination.
pub open spec fn plan_matches(e: &Emitter, p: Map<Seq<char>, ValueView>, now: int, r: EmitPlan) -> bool {
    let merged = e.defaults_map().union_prefer_right(p);
    match derive_fields(merged, e.app_ns(), now) {
        Err(err) => r == EmitPlan::Drop(err),
        Ok(m) => match e.target_dest() {
            None => r == EmitPlan::Drop(EmitError::BadDestination),
            Some(d) => match r {
                EmitPlan::Send(dst, bytes) => dst@ == d && bytes@ == frame_bytes(
                    d.transport,
                    json_point(entries_of(m)),
                ),
                _ => false,
            },
        },
    }
}

impl Emitter {
    /// The emitter the process-wide handle starts from: an empty defaults
    /// template (plus the discovered host), no namespace, and the stock
    /// collector address.
    pub fn empty(host: &str) -> (r: Emitter)
        ensures
            r.defaults_map() == Map::<Seq<char>, ValueView>::empty().insert(
                "host"@,
                ValueView::Text(host@),
            ),
            r.app_ns() == Seq::<char>::empty(),
            r.target_chars() == "http://localhost:4151/pub?topic=metrics"@,
            r.conn_state() == ConnState::Disconnected,
    {
        let mut defaults = Point::new();
        defaults.insert(String::from_str("host"), Value::Text(String::from_str(host)));
        Emitter {
            defaults,
            app: String::new(),
            target: String::from_str("http://localhost:4151/pub?topic=metrics"),
            conn: ConnState::Disconnected,
        }
    }

    /// An emitter with the given defaults template (plus the discovered
    /// host), namespaced under the app name; its destination is left unset
    /// until `connect`.
    pub fn new(tmpl: Point, app: &str, host: &str) -> (r: Emitter)
        ensures
            r.defaults_map() == tmpl.as_map().insert("host"@, ValueView::Text(host@)),
            r.app_ns() == spec_namespace(app@),
            r.target_chars() == Seq::<char>::empty(),
            r.conn_state() == ConnState::Disconnected,
    {
        let mut defaults = tmpl;
        defaults.insert(String::from_str("host"), Value::Text(String::from_str(host)));
        Emitter {
            defaults,
            app: namespace_of(app),
            target: String::new(),
            conn: ConnState::Disconnected,
        }
    }

    /// An emitter with no defaults of its own, namespaced under the app
    /// name.
    pub fn for_app(app: &str, host: &str) -> (r: Emitter)
        ensures
            r.defaults_map() == Map::<Seq<char>, ValueView>::empty().insert(
                "host"@,
                ValueView::Text(host@),
            ),
            r.app_ns() == spec_namespace(app@),
            r.target_chars() == Seq::<char>::empty(),
            r.conn_state() == ConnState::Disconnected,
    {
        Emitter::new(Point::new(), app, host)
    }

    /// Replaces the defaults template (plus the freshly discovered host)
    /// and the namespace in place, as construction would set them. The
    /// destination and the connection are kept.
    pub fn init(&mut self, tmpl: Point, app: &str, host: &str)
        ensures
            final(self).defaults_map() == tmpl.as_map().insert("host"@, ValueView::Text(host@)),
            final(self).app_ns() == spec_namespace(app@),
            final(self).target_chars() == old(self).target_chars(),
            final(self).conn_state() == old(self).conn_state(),
    {
        let mut defaults = tmpl;
        defaults.insert(String::from_str("host"), Value::Text(String::from_str(host)));
        self.defaults = defaults;
        self.app = namespace_of(app);
    }

    /// Stores a destination address, rewriting the queue scheme to HTTP.
    /// Storing does not itself change the connection; the caller should
    /// dial at once (via [`Emitter::dial_request`]) so failures surface
    /// early, though still silently.
    pub fn connect(&mut self, target: &str)
        ensures
            final(self).target_chars() == spec_rewrite_scheme(target@),
            final(self).defaults_map() == old(self).defaults_map(),
            final(self).app_ns() == old(self).app_ns(),
            final(self).conn_state() == old(self).conn_state(),
    {
        self.target = rewrite_scheme(target);
    }

    /// Whether a usable handle is held; the caller must send only while
    /// this holds.
    pub fn is_connected(&self) -> (r: bool)
        ensures
            r == (self.conn_state() == ConnState::Connected),
    {
        match self.conn {
            ConnState::Connected => true,
            ConnState::Disconnected => false,
        }
    }

    /// The destination to dial, re-resolved from the stored address on
    /// every attempt; nothing to dial when the address is absent or
    /// unreadable.
    pub fn dial_request(&self) -> (r: Option<Destination>)
        ensures
            match r {
                Some(d) => self.target_dest() == Some(d@),
                None => self.target_dest() is None,
            },
    {
        parse_destination(self.target.as_str())
    }

    /// Reports a dial outcome: success holds the handle, failure leaves
    /// the connection down.
    pub fn on_dial_result(&mut self, ok: bool)
        ensures
            final(self).conn_state() == state_after_dial(ok),
            final(self).defaults_map() == old(self).defaults_map(),
            final(self).app_ns() == old(self).app_ns(),
            final(self).target_chars() == old(self).target_chars(),
    {
        self.conn = if ok {
            ConnState::Connected
        } else {
            ConnState::Disconnected
        };
    }

    /// Reports a send outcome: a failed write discards the handle, and the
    /// payload it carried is never retried.
    pub fn on_send_result(&mut self, ok: bool)
        ensures
            final(self).conn_state() == state_after_send(old(self).conn_state(), ok),
            final(self).defaults_map() == old(self).defaults_map(),
            final(self).app_ns() == old(self).app_ns(),
            final(self).target_chars() == old(self).target_chars(),
    {
        if !ok {
            self.conn = ConnState::Disconnected;
        }
    }

    /// A duplicate for another owner. Two owners must not share one
    /// transport handle, so the duplicate starts disconnected.
    pub fn duplicate(&self) -> (r: Emitter)
        ensures
            r.defaults_map() == self.defaults_map(),
            r.app_ns() == self.app_ns(),
            r.target_chars() == self.target_chars(),
            r.conn_state() == ConnState::Disconnected,
    {
        Emitter {
            defaults: self.defaults.duplicate(),
            app: self.app.clone(),
            target: self.target.clone(),
            conn: ConnState::Disconnected,
        }
    }

    /// Plans the emission of a point at a given clock reading: merges it
    /// over the defaults, derives the required fields, and encodes it for
    /// the stored destination.
    pub fn plan_point(&self, point: &Point, now_millis: i64) -> (r: EmitPlan)
        ensures
            plan_matches(self, point.as_map(), now_millis as int, r),
    {
        let ghost m = self.defaults_map().union_prefer_right(point.as_map());
        let mut merged = merge(&self.defaults, point);
        let name_v = merged.remove("name");
        match name_v {
            None => EmitPlan::Drop(EmitError::MissingName),
            Some(Value::Text(nm)) => {
                let mut full = String::from_str(self.app.as_str());
                full.append(nm.as_str());
                merged.insert(String::from_str("name"), Value::Text(full));
                proof {
                    assert(merged.as_map() =~= m.insert(
                        "name"@,
                        ValueView::Text(self.app_ns() + nm@),
                    ));
                }
                if !merged.contains_key("value") {
                    merged.insert(String::from_str("value"), Value::Int(1));
                }
                if !merged.contains_key("time") {
                    merged.insert(String::from_str("time"), Value::Int(now_millis));
                }
                let ghost m3 = merged.as_map();
                proof {
                    assert(derive_fields(m, self.app_ns(), now_millis as int) == Ok::<_, EmitError>(
                        m3,
                    ));
                }
                match parse_destination(self.target.as_str()) {
                    None => EmitPlan::Drop(EmitError::BadDestination),
                    Some(d) => {
                        proof {
                            use_type_invariant(&merged);
                            lemma_entries_of(merged@);
                        }
                        let json = encode_point(&merged);
                        let transport = d.transport;
                        let framed = frame_payload(transport, json);
                        EmitPlan::Send(d, framed)
                    },
                }
            },
            Some(v) => {
                proof {
                    assert(m["name"@] == v@);
                    assert(!(m["name"@] is Text));
                }
                EmitPlan::Drop(EmitError::NameNotText)
            },
        }
    }

    /// Emits a point: plans it at the present clock reading. The clock
    /// reading is whatever the wall clock gave, but never negative.
    pub fn emit_point(&self, point: &Point) -> (r: EmitPlan)
        ensures
            exists|now: int| 0 <= now && plan_matches(self, point.as_map(), now, r),
    {
        let now = now_millis();
        let r = self.plan_point(point, now);
        proof {
            assert(0 <= now as int && plan_matches(self, point.as_map(), now as int, r));
        }
        r
    }

    /// Emits a name and a value.
    pub fn emit(&self, name: &str, value: Value) -> (r: EmitPlan)
        ensures
            exists|now: int|
                0 <= now && plan_matches(
                    self,
                    Map::<Seq<char>, ValueView>::empty().insert("name"@, ValueView::Text(name@)).insert(
                        "value"@,
                        value@,
                    ),
                    now,
                    r,
                ),
    {
        let mut point = Point::new();
        point.insert(String::from_str("name"), Value::Text(String::from_str(name)));
        point.insert(String::from_str("value"), value);
        self.emit_point(&point)
    }

    /// Emits a bare name; the value defaults on the way out.
    pub fn emit_name(&self, name: &str) -> (r: EmitPlan)
        ensures
            exists|now: int|
                0 <= now && plan_matches(
                    self,
                    Map::<Seq<char>, ValueView>::empty().insert("name"@, ValueView::Text(name@)),
                    now,
                    r,
                ),
    {
        let mut point = Point::new();
        point.insert(String::from_str("name"), Value::Text(String::from_str(name)));
        self.emit_point(&point)
    }

    /// Emits a name, a value, and one tag.
    pub fn emit_name_val_tag(&self, name: &str, value: Value, tag: &str, tagv: Value) -> (r:
        EmitPlan)
        ensures
            exists|now: int|
                0 <= now && plan_matches(
                    self,
                    Map::<Seq<char>, ValueView>::empty().insert("name"@, ValueView::Text(name@)).insert(
                        "value"@,
                        value@,
                    ).insert(tag@, tagv@),
                    now,
                    r,
                ),
    {
        let mut point = Point::new();
        point.insert(String::from_str("name"), Value::Text(String::from_str(name)));
        point.insert(String::from_str("value"), value);
        point.insert(String::from_str(tag), tagv);
        self.emit_point(&point)
    }
}

/// The namespace string an app name yields.
fn namespace_of(app: &str) -> (r: String)
    ensures
        r@ == spec_namespace(app@),
{
    if app.is_empty() {
        String::new()
    } else {
        let mut t = String::from_str(app);
        t.append(".");
        t
    }
}

} // verus!
