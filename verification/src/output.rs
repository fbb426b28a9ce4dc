//! How a matching record is written out.

use crate::cli::{text_of, Args, ConfigError, Input, Output};
use crate::engine::record::{field_of, field_text, read_record, Record, RecordView};
use crate::json::{
    json_text, lemma_view_of_parts, members_view, Json, JsonView, Member, MemberView,
};
use crate::text::{
    chars_of, replace, replace_chars, split, split_chars, string_of, trim, trim_chars, views,
};
use vstd::prelude::*;

verus! {

/// What to write for each matching record.
#[derive(Debug, Clone)]
pub struct EmitPlan {
    /// The output format.
    pub mode: Output,
    /// The dotted path of the field that `Output::Field` writes.
    pub field: Option<String>,
    /// The dotted paths that `Output::Ndjson` projects onto; empty for the
    /// whole value.
    pub select: Vec<String>,
}

/// The mathematical value of an `EmitPlan`.
pub ghost struct PlanView {
    pub mode: Output,
    pub field: Option<Seq<char>>,
    pub select: Seq<Seq<char>>,
}

impl View for EmitPlan {
    type V = PlanView;

    open spec fn view(&self) -> PlanView {
        PlanView { mode: self.mode, field: text_of(self.field), select: views(self.select@) }
    }
}

/// The pieces, each trimmed, without those that are empty after trimming.
pub open spec fn kept(pieces: Seq<Seq<char>>) -> Seq<Seq<char>>
    decreases pieces.len(),
{
    if pieces.len() == 0 {
        Seq::<Seq<char>>::empty()
    } else {
        let rest = kept(pieces.drop_last());
        let piece = trim(pieces.last());
        if piece.len() > 0 {
            rest.push(piece)
        } else {
            rest
        }
    }
}

/// The paths that a comma-separated selection names, in order.
pub open spec fn selection(select: Option<Seq<char>>) -> Seq<Seq<char>> {
    match select {
        Some(s) => kept(split(s, ',')),
        None => kept(split(Seq::<char>::empty(), ',')),
    }
}

/// A plan can run unless it is to write a field and names none.
pub open spec fn runnable(plan: PlanView) -> bool {
    plan.mode == Output::Field ==> plan.field is Some
}

/// What is wrong with the output that `args` configures.
pub open spec fn plan_fault(args: Args) -> Option<ConfigError> {
    if args.output == Output::Field && args.field is None {
        Some(ConfigError::FieldRequired)
    } else {
        None
    }
}

/// The plan that `args` configures.
pub open spec fn plan_of(args: Args) -> PlanView {
    PlanView {
        mode: args.output,
        field: text_of(args.field),
        select: selection(text_of(args.select)),
    }
}

/// The members with `key` set to `value`: in place where the key is there
/// already, else at the end.
pub open spec fn put(members: Seq<MemberView>, key: Seq<char>, value: JsonView) -> Seq<MemberView>
    decreases members.len(),
{
    if members.len() == 0 {
        seq![MemberView { key, value }]
    } else if members[0].key == key {
        seq![MemberView { key, value }] + members.skip(1)
    } else {
        seq![members[0]] + put(members.skip(1), key, value)
    }
}

/// The key under which the field at `path` is written: the path with its
/// dots turned into underscores.
pub open spec fn flat_key(path: Seq<char>) -> Seq<char> {
    replace(path, '.', '_')
}

/// The members of the projection of `rec` onto `select`: for each path in
/// order its flat key with the node it addresses, `null` where it addresses
/// none.
pub open spec fn selected(rec: RecordView, select: Seq<Seq<char>>) -> Seq<MemberView>
    decreases select.len(),
{
    if select.len() == 0 {
        Seq::<MemberView>::empty()
    } else {
        put(
            selected(rec, select.drop_last()),
            flat_key(select.last()),
            match field_of(rec, select.last()) {
                Some(v) => v,
                None => JsonView::Null,
            },
        )
    }
}

/// The object that stands for a line without structure.
pub open spec fn line_wrapper(raw: Seq<char>) -> JsonView {
    JsonView::Object(seq![MemberView { key: "line"@, value: JsonView::String(raw) }])
}

/// The line written for `rec` under `plan`; `None` where the plan cannot
/// run.
pub open spec fn emitted(rec: RecordView, plan: PlanView) -> Option<Seq<char>> {
    match plan.mode {
        Output::Plain => Some(rec.raw),
        Output::Field => match plan.field {
            Some(path) => Some(
                match field_text(rec, path) {
                    Some(t) => t,
                    None => Seq::<char>::empty(),
                },
            ),
            None => None,
        },
        Output::Ndjson => Some(
            if plan.select.len() > 0 {
                json_text(JsonView::Object(selected(rec, plan.select)))
            } else {
                match rec.json {
                    Some(v) => json_text(v),
                    None => json_text(line_wrapper(rec.raw)),
                }
            },
        ),
    }
}

/// Written plainly, a record reproduces its line; so the record of any line
/// read as text gives that line back.
pub proof fn lemma_plain_round_trip(line: Seq<char>, rec: RecordView, plan: PlanView)
    requires
        plan.mode == Output::Plain,
    ensures
        emitted(rec, plan) == Some(rec.raw),
        read_record(line, Input::Text) matches Some(r) && emitted(r, plan) == Some(line),
{
}

/// No key occurs twice among `members`.
pub open spec fn distinct_keys(members: Seq<MemberView>) -> bool {
    forall|i: int, j: int| 0 <= i < j < members.len() ==> members[i].key != members[j].key
}

/// Whether some member is named `key`.
pub open spec fn has_key(members: Seq<MemberView>, key: Seq<char>) -> bool {
    exists|i: int| 0 <= i < members.len() && members[i].key == key
}

/// `put` leaves every member where it is and under its key, adds at most the
/// one member at the end, and makes `key` lead to `value`. Keys that were
/// distinct stay so.
pub proof fn lemma_put_keeps_keys(members: Seq<MemberView>, key: Seq<char>, value: JsonView)
    ensures
        put(members, key, value).len() == if has_key(members, key) {
            members.len()
        } else {
            members.len() + 1
        },
        forall|j: int|
            0 <= j < members.len() ==> (#[trigger] put(members, key, value)[j]).key
                == members[j].key,
        !has_key(members, key) ==> put(members, key, value)[members.len() as int]
            == (MemberView { key, value }),
        crate::json::member(put(members, key, value), key) == Some(value),
        distinct_keys(members) ==> distinct_keys(put(members, key, value)),
    decreases members.len(),
{
    let m = MemberView { key, value };
    let after = put(members, key, value);
    if members.len() == 0 {
        assert(!has_key(members, key));
    } else if members[0].key == key {
        assert(has_key(members, key));
        assert(after =~= members.update(0, m));
    } else {
        let rest = members.skip(1);
        lemma_put_keeps_keys(rest, key, value);
        let tail = put(rest, key, value);
        assert(after == seq![members[0]] + tail);
        assert(has_key(members, key) == has_key(rest, key)) by {
            if has_key(rest, key) {
                let i = choose|i: int| 0 <= i < rest.len() && rest[i].key == key;
                assert(members[i + 1].key == key);
            }
            if has_key(members, key) {
                let i = choose|i: int| 0 <= i < members.len() && members[i].key == key;
                assert(rest[i - 1].key == key);
            }
        }
        assert forall|j: int| 0 <= j < members.len() implies (#[trigger] after[j]).key
            == members[j].key by {
            if j > 0 {
                assert(after[j] == tail[j - 1]);
                assert(rest[j - 1] == members[j]);
            }
        }
        if !has_key(members, key) {
            assert(after[members.len() as int] == tail[rest.len() as int]);
        }
        assert(after.skip(1) =~= tail);
        if distinct_keys(members) {
            assert(distinct_keys(rest)) by {
                assert forall|i: int, j: int| 0 <= i < j < rest.len() implies rest[i].key
                    != rest[j].key by {
                    assert(rest[i] == members[i + 1] && rest[j] == members[j + 1]);
                }
            }
            assert forall|i: int, j: int| 0 <= i < j < after.len() implies after[i].key
                != after[j].key by {
                if i > 0 {
                    assert(after[i] == tail[i - 1] && after[j] == tail[j - 1]);
                } else {
                    assert(after[j] == tail[j - 1]);
                    if j < members.len() {
                        assert(after[j].key == members[j].key);
                    } else {
                        assert(after[j] == m);
                    }
                }
            }
        }
    }
}

/// A projection names every key once.
pub proof fn lemma_selected_distinct(rec: RecordView, select: Seq<Seq<char>>)
    ensures
        distinct_keys(selected(rec, select)),
    decreases select.len(),
{
    if select.len() > 0 {
        lemma_selected_distinct(rec, select.drop_last());
        lemma_put_keeps_keys(
            selected(rec, select.drop_last()),
            flat_key(select.last()),
            match field_of(rec, select.last()) {
                Some(v) => v,
                None => JsonView::Null,
            },
        );
    }
}

/// Where `key` is first found at `i`, `put` replaces the value there.
proof fn lemma_put_known(members: Seq<MemberView>, key: Seq<char>, value: JsonView, i: int)
    requires
        0 <= i < members.len(),
        members[i].key == key,
        forall|k: int| 0 <= k < i ==> members[k].key != key,
    ensures
        put(members, key, value) == members.update(i, MemberView { key, value }),
    decreases members.len(),
{
    let m = MemberView { key, value };
    if i == 0 {
        assert(seq![m] + members.skip(1) =~= members.update(0, m));
    } else {
        lemma_put_known(members.skip(1), key, value, i - 1);
        assert(seq![members[0]] + members.skip(1).update(i - 1, m) =~= members.update(i, m));
    }
}

/// Where `key` is not found, `put` adds the member at the end.
proof fn lemma_put_new(members: Seq<MemberView>, key: Seq<char>, value: JsonView)
    requires
        forall|k: int| 0 <= k < members.len() ==> members[k].key != key,
    ensures
        put(members, key, value) == members.push(MemberView { key, value }),
    decreases members.len(),
{
    let m = MemberView { key, value };
    if members.len() == 0 {
        assert(seq![m] =~= members.push(m));
    } else {
        lemma_put_new(members.skip(1), key, value);
        assert(seq![members[0]] + members.skip(1).push(m) =~= members.push(m));
    }
}

/// Sets `key` to `value` among `members`.
pub fn put_member(members: &mut Vec<Member>, key: String, value: Json)
    ensures
        members_view(final(members)@) == put(members_view(old(members)@), key@, value@),
{
    let ghost before = members_view(members@);
    let n = members.len();
    let mut i: usize = 0;
    while i < n
        invariant
            i <= n,
            n == members.len(),
            members@ == old(members)@,
            before == members_view(old(members)@),
            forall|k: int| 0 <= k < i ==> before[k].key != key@,
        decreases n - i,
    {
        assert(before[i as int].key == members[i as int].key@);
        if members[i].key == key {
            let ghost m = MemberView { key: key@, value: value@ };
            members.set(i, Member { key, value });
            proof {
                lemma_put_known(before, m.key, m.value, i as int);
                assert(members_view(members@) =~= before.update(i as int, m));
            }
            return ;
        }
        i += 1;
    }
    let ghost m = MemberView { key: key@, value: value@ };
    members.push(Member { key, value });
    proof {
        lemma_put_new(before, m.key, m.value);
        assert(members_view(members@) =~= before.push(m));
    }
}

/// The projection of `rec` onto `fields`, as an object.
pub fn select_fields(rec: &Record, fields: &Vec<String>) -> (r: Json)
    ensures
        r@ == JsonView::Object(selected(rec@, views(fields@))),
{
    let ghost paths = views(fields@);
    let mut out: Vec<Member> = Vec::new();
    let mut i: usize = 0;
    assert(paths.take(0) =~= Seq::<Seq<char>>::empty());
    assert(members_view(out@) =~= selected(rec@, paths.take(0)));
    while i < fields.len()
        invariant
            i <= fields.len(),
            paths == views(fields@),
            members_view(out@) == selected(rec@, paths.take(i as int)),
        decreases fields.len() - i,
    {
        let path = chars_of(fields[i].as_str());
        let key = string_of(&replace_chars(&path, '.', '_'));
        let value = match rec.get_field(fields[i].as_str()) {
            Some(v) => v.copy(),
            None => Json::Null,
        };
        proof {
            assert(paths.take(i + 1).drop_last() =~= paths.take(i as int));
            assert(paths.take(i + 1).last() == fields[i as int]@);
        }
        put_member(&mut out, key, value);
        i += 1;
    }
    assert(paths.take(fields.len() as int) =~= paths);
    let r = Json::Object(out);
    proof {
        lemma_view_of_parts(r);
    }
    r
}

impl EmitPlan {
    /// The plan that `args` configures. Writing a field needs a field.
    pub fn build(args: &Args) -> (r: Result<EmitPlan, ConfigError>)
        ensures
            match plan_fault(*args) {
                Some(fault) => r matches Err(e) && e == fault,
                None => r matches Ok(plan) && plan@ == plan_of(*args) && runnable(plan@),
            },
    {
        if matches!(args.output, Output::Field) && args.field.is_none() {
            return Err(ConfigError::FieldRequired);
        }
        let text = match &args.select {
            Some(s) => chars_of(s.as_str()),
            None => Vec::new(),
        };
        let pieces = split_chars(&text, ',');
        let ghost all = views(pieces@);
        let mut select: Vec<String> = Vec::new();
        let mut i: usize = 0;
        assert(all.take(0) =~= Seq::<Seq<char>>::empty());
        assert(views(select@) =~= kept(all.take(0)));
        while i < pieces.len()
            invariant
                i <= pieces.len(),
                all == views(pieces@),
                views(select@) == kept(all.take(i as int)),
            decreases pieces.len() - i,
        {
            let piece = trim_chars(&pieces[i]);
            proof {
                assert(all.take(i + 1).drop_last() =~= all.take(i as int));
                assert(all.take(i + 1).last() == pieces[i as int]@);
            }
            if piece.len() > 0 {
                let ghost before = select@;
                let path = string_of(&piece);
                select.push(path);
                assert(views(select@) =~= views(before).push(piece@));
            }
            i += 1;
        }
        assert(all.take(pieces.len() as int) =~= all);
        Ok(EmitPlan { mode: args.output, field: args.field.clone(), select })
    }
}

/// The line to write for `rec`: the raw line, the text of the chosen field
/// (empty where the record has none), or a line of JSON.
pub fn emit_record(rec: &Record, plan: &EmitPlan) -> (r: Result<String, ConfigError>)
    ensures
        match emitted(rec@, plan@) {
            Some(text) => r matches Ok(s) && s@ == text,
            None => r matches Err(e) && e == ConfigError::FieldRequired,
        },
{
    match plan.mode {
        Output::Plain => Ok(rec.raw.clone()),
        Output::Field => match &plan.field {
            Some(path) => match rec.get_field_string(path.as_str()) {
                Some(t) => Ok(t),
                None => Ok(String::new()),
            },
            None => Err(ConfigError::FieldRequired),
        },
        Output::Ndjson => {
            if plan.select.len() > 0 {
                Ok(select_fields(rec, &plan.select).text())
            } else {
                match &rec.json {
                    Some(v) => Ok(v.text()),
                    None => {
                        let key = string_of(&chars_of("line"));
                        let mut members: Vec<Member> = Vec::new();
                        members.push(Member { key, value: Json::String(rec.raw.clone()) });
                        let wrapper = Json::Object(members);
                        proof {
                            lemma_view_of_parts(wrapper);
                            assert(wrapper@->Object_0 =~= line_wrapper(rec@.raw)->Object_0);
                        }
                        Ok(wrapper.text())
                    },
                }
            }
        },
    }
}

} // verus!
