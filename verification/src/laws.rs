//! The laws the emission pipeline obeys, stated once over all inputs.

use vstd::prelude::*;

use crate::emitter::ConnEvent;
use crate::emitter::ConnState;
use crate::emitter::EmitError;
use crate::emitter::EmitPlan;
use crate::emitter::Emitter;
use crate::emitter::derive_fields;
use crate::emitter::next_conn;
use crate::emitter::plan_matches;
use crate::emitter::run_conn;
use crate::emitter::state_after_dial;
use crate::emitter::state_after_send;
use crate::value::ValueView;

verus! {

/// The three derived field names are pairwise distinct.
proof fn lemma_keys_distinct()
    ensures
        "name"@ != "value"@,
        "name"@ != "time"@,
        "value"@ != "time"@,
{
    reveal_strlit("name");
    reveal_strlit("value");
    reveal_strlit("time");
    assert("name"@.len() == 4);
    assert("value"@.len() == 5);
    assert("time"@.len() == 4);
    assert("name"@[0] == 'n');
    assert("time"@[0] == 't');
}

/// Merging a point over defaults yields exactly the fields of both: every
/// field of the override with the override's value, and every field only
/// the defaults carry with the defaults' value.
pub proof fn lemma_merge_fields(d: Map<Seq<char>, ValueView>, p: Map<Seq<char>, ValueView>)
    ensures
        d.union_prefer_right(p).dom() == d.dom() + p.dom(),
        forall|k: Seq<char>|
            p.dom().contains(k) ==> d.union_prefer_right(p)[k] == #[trigger] p[k],
        forall|k: Seq<char>|
            d.dom().contains(k) && !p.dom().contains(k) ==> d.union_prefer_right(p)[k]
                == #[trigger] d[k],
{
    assert(d.union_prefer_right(p).dom() =~= d.dom() + p.dom());
}

/// A point whose merge with the defaults carries no name is dropped:
/// whatever the clock read and wherever the emitter points, the plan holds
/// no bytes.
pub proof fn lemma_missing_name_dropped(
    e: &Emitter,
    p: Map<Seq<char>, ValueView>,
    now: int,
    r: EmitPlan,
)
    requires
        !e.defaults_map().union_prefer_right(p).dom().contains("name"@),
        plan_matches(e, p, now, r),
    ensures
        r == EmitPlan::Drop(EmitError::MissingName),
{
}

/// The emitted name is the app namespace followed by the merged point's
/// name; with an empty namespace it is that name unchanged.
pub proof fn lemma_name_namespaced(
    m: Map<Seq<char>, ValueView>,
    ns: Seq<char>,
    now: int,
    n: Seq<char>,
)
    requires
        m.dom().contains("name"@),
        m["name"@] == ValueView::Text(n),
    ensures
        derive_fields(m, ns, now) is Ok,
        derive_fields(m, ns, now)->Ok_0.dom().contains("name"@),
        derive_fields(m, ns, now)->Ok_0["name"@] == ValueView::Text(ns + n),
        ns.len() == 0 ==> derive_fields(m, ns, now)->Ok_0["name"@] == ValueView::Text(n),
{
    lemma_keys_distinct();
    if ns.len() == 0 {
        assert(ns + n =~= n);
    }
}

/// Every derived point carries a `value`: the caller's where one was
/// given, and `1` where none was.
pub proof fn lemma_value_present(m: Map<Seq<char>, ValueView>, ns: Seq<char>, now: int)
    requires
        derive_fields(m, ns, now) is Ok,
    ensures
        derive_fields(m, ns, now)->Ok_0.dom().contains("value"@),
        !m.dom().contains("value"@) ==> derive_fields(m, ns, now)->Ok_0["value"@]
            == ValueView::Int(1),
        m.dom().contains("value"@) ==> derive_fields(m, ns, now)->Ok_0["value"@] == m["value"@],
{
    lemma_keys_distinct();
}

/// Every derived point carries a `time`: the caller's where one was given,
/// and the clock reading — a non-negative integer — where none was.
pub proof fn lemma_time_present(m: Map<Seq<char>, ValueView>, ns: Seq<char>, now: int)
    requires
        derive_fields(m, ns, now) is Ok,
        0 <= now,
    ensures
        derive_fields(m, ns, now)->Ok_0.dom().contains("time"@),
        !m.dom().contains("time"@) ==> derive_fields(m, ns, now)->Ok_0["time"@] == ValueView::Int(
            now,
        ) && now >= 0,
        m.dom().contains("time"@) ==> derive_fields(m, ns, now)->Ok_0["time"@] == m["time"@],
{
    lemma_keys_distinct();
}

/// Everything the emitted object holds, for any defaults `d` and point `p`
/// whose merged name is the text `n`: its fields are exactly those of the
/// two inputs together with `name`, `value` and `time`; every field of `p`
/// keeps `p`'s value and every field only `d` carries keeps `d`'s
/// (override wins wholesale on collision, nothing merges deeply); the name
/// goes out namespaced; and `value` and `time` are filled in exactly when
/// both inputs omitted them. (A merged name that is not text is dropped
/// with its own reason and nothing is emitted.)
pub proof fn lemma_emitted_fields(
    d: Map<Seq<char>, ValueView>,
    p: Map<Seq<char>, ValueView>,
    ns: Seq<char>,
    now: int,
    n: Seq<char>,
)
    requires
        d.union_prefer_right(p).dom().contains("name"@),
        d.union_prefer_right(p)["name"@] == ValueView::Text(n),
    ensures
        derive_fields(d.union_prefer_right(p), ns, now) is Ok,
        ({
            let s = derive_fields(d.union_prefer_right(p), ns, now)->Ok_0;
            &&& s.dom() == d.dom() + p.dom() + set!["name"@, "value"@, "time"@]
            &&& s["name"@] == ValueView::Text(ns + n)
            &&& forall|k: Seq<char>|
                #[trigger] p.dom().contains(k) && k != "name"@ ==> s[k] == p[k]
            &&& forall|k: Seq<char>|
                #[trigger] d.dom().contains(k) && !p.dom().contains(k) && k != "name"@ ==> s[k]
                    == d[k]
            &&& !d.dom().contains("value"@) && !p.dom().contains("value"@) ==> s["value"@]
                == ValueView::Int(1)
            &&& (d.dom().contains("value"@) || p.dom().contains("value"@)) ==> s["value"@]
                == d.union_prefer_right(p)["value"@]
            &&& !d.dom().contains("time"@) && !p.dom().contains("time"@) ==> s["time"@]
                == ValueView::Int(now)
            &&& (d.dom().contains("time"@) || p.dom().contains("time"@)) ==> s["time"@]
                == d.union_prefer_right(p)["time"@]
        }),
{
    lemma_keys_distinct();
    let m = d.union_prefer_right(p);
    let s = derive_fields(m, ns, now)->Ok_0;
    let m1 = m.insert("name"@, ValueView::Text(ns + n));
    let m2 = if m1.dom().contains("value"@) {
        m1
    } else {
        m1.insert("value"@, ValueView::Int(1))
    };
    let m3 = if m2.dom().contains("time"@) {
        m2
    } else {
        m2.insert("time"@, ValueView::Int(now))
    };
    assert(s == m3);
    assert(m.dom() =~= d.dom() + p.dom());
    assert(s.dom() =~= d.dom() + p.dom() + set!["name"@, "value"@, "time"@]);
    assert forall|k: Seq<char>| #[trigger] p.dom().contains(k) && k != "name"@ implies s[k]
        == p[k] by {
        assert(m.dom().contains(k));
        assert(m[k] == p[k]);
        if !m1.dom().contains("value"@) {
            assert(k != "value"@);
        }
        if !m2.dom().contains("time"@) {
            assert(k != "time"@);
        }
    }
    assert forall|k: Seq<char>|
        #[trigger] d.dom().contains(k) && !p.dom().contains(k) && k != "name"@ implies s[k] == d[k] by {
        assert(m.dom().contains(k));
        assert(m[k] == d[k]);
        if !m1.dom().contains("value"@) {
            assert(k != "value"@);
        }
        if !m2.dom().contains("time"@) {
            assert(k != "time"@);
        }
    }
}

/// While no dial succeeds, a disconnected connection stays disconnected;
/// a caller that sends only while connected therefore puts nothing on the
/// wire.
pub proof fn lemma_never_connected(evs: Seq<ConnEvent>)
    requires
        forall|i: int| 0 <= i < evs.len() ==> evs[i] != ConnEvent::Dial(true),
    ensures
        run_conn(ConnState::Disconnected, evs) == ConnState::Disconnected,
    decreases evs.len(),
{
    if evs.len() > 0 {
        assert(next_conn(ConnState::Disconnected, evs[0]) == ConnState::Disconnected) by {
            match evs[0] {
                ConnEvent::Dial(ok) => {
                    assert(evs[0] != ConnEvent::Dial(true));
                },
                ConnEvent::Send(_) => {
                },
            }
        }
        assert forall|i: int| 0 <= i < evs.drop_first().len() implies evs.drop_first()[i]
            != ConnEvent::Dial(true) by {
            assert(evs.drop_first()[i] == evs[i + 1]);
        }
        lemma_never_connected(evs.drop_first());
    }
}

/// A failed send puts the connection down — its payload is gone for good —
/// and the next successful dial brings it back up for the points that
/// follow.
pub proof fn lemma_send_failure_resets(s: ConnState)
    ensures
        state_after_send(s, false) == ConnState::Disconnected,
        state_after_dial(true) == ConnState::Connected,
        run_conn(s, seq![ConnEvent::Send(false), ConnEvent::Dial(true)]) == ConnState::Connected,
{
    let evs = seq![ConnEvent::Send(false), ConnEvent::Dial(true)];
    assert(evs.len() == 2);
    assert(evs[0] == ConnEvent::Send(false));
    assert(run_conn(s, evs) == run_conn(next_conn(s, evs[0]), evs.drop_first()));
    assert(next_conn(s, evs[0]) == ConnState::Disconnected);
    let e1 = evs.drop_first();
    assert(e1.len() == 1);
    assert(e1[0] == ConnEvent::Dial(true));
    assert(run_conn(ConnState::Disconnected, e1) == run_conn(
        next_conn(ConnState::Disconnected, e1[0]),
        e1.drop_first(),
    ));
    assert(next_conn(ConnState::Disconnected, e1[0]) == ConnState::Connected);
    assert(e1.drop_first().len() == 0);
    assert(run_conn(ConnState::Connected, e1.drop_first()) == ConnState::Connected);
}

} // verus!
