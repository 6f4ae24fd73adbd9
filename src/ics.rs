//! Calendar export to and import from iCalendar text.

use vstd::prelude::*;
use crate::text::{push_text, int_text, i64_text, chars_of, string_of, copy_range, texts, lines_of, split_lines, trim, trim_chars};
use crate::ingestion::{starts_with, starts_with_exec};

verus! {

/// A calendar event. Times are RFC 3339 texts.
pub struct CalendarEvent {
    pub id: i64,
    pub title: String,
    pub description: Option<String>,
    pub start_time: String,
    pub end_time: String,
    pub reminder_time: Option<String>,
    pub recurrence: Option<String>,
    pub created_at: String,
}

/// The iCalendar stamp (`YYYYMMDDTHHMMSSZ`) that an RFC 3339 text gives, or
/// nothing when it does not parse.
pub uninterp spec fn ics_stamp_of(iso: Seq<char>) -> Option<Seq<char>>;

/// Relies on chrono's `DateTime::parse_from_rfc3339` and on formatting the
/// parsed value with `%Y%m%dT%H%M%SZ`: the result depends on the text
/// alone.
#[verifier::external_body]
fn ics_datetime(iso: &str) -> (r: Option<String>)
    ensures
        match r {
            Some(s) => ics_stamp_of(iso@) == Some(s@),
            None => ics_stamp_of(iso@) is None,
        },
{
    match chrono::DateTime::parse_from_rfc3339(iso) {
        Ok(dt) => Some(dt.format("%Y%m%dT%H%M%SZ").to_string()),
        Err(_) => None,
    }
}

/// Text escaped for an iCalendar value: `,` `;` and line feeds get a
/// backslash (a line feed becomes `\n`).
pub open spec fn ics_escape(s: Seq<char>) -> Seq<char>
    decreases s.len(),
{
    if s.len() == 0 {
        s
    } else {
        let r = ics_escape(s.drop_last());
        let c = s.last();
        if c == ',' {
            r + seq!['\\', ',']
        } else if c == ';' {
            r + seq!['\\', ';']
        } else if c == '\n' {
            r + seq!['\\', 'n']
        } else {
            r.push(c)
        }
    }
}

/// Escapes text for an iCalendar value.
pub fn escape_ics_text(text: &str) -> (r: String)
    ensures
        r@ == ics_escape(text@),
{
    let cs = chars_of(text);
    let mut out: Vec<char> = Vec::new();
    let mut i: usize = 0;
    while i < cs.len()
        invariant
            i <= cs@.len(),
            out@ == ics_escape(cs@.subrange(0, i as int)),
        decreases cs.len() - i,
    {
        assert(cs@.subrange(0, i + 1).drop_last() =~= cs@.subrange(0, i as int));
        let c = cs[i];
        let ghost before = out@;
        if c == ',' {
            out.push('\\');
            out.push(',');
        } else if c == ';' {
            out.push('\\');
            out.push(';');
        } else if c == '\n' {
            out.push('\\');
            out.push('n');
        } else {
            out.push(c);
        }
        assert(out@ =~= ics_escape(cs@.subrange(0, i + 1)));
        i = i + 1;
    }
    assert(cs@.subrange(0, cs@.len() as int) =~= cs@);
    string_of(&out)
}

/// The VEVENT block of one event, given its two stamps.
pub open spec fn event_block(e: CalendarEvent, start: Seq<char>, end: Seq<char>) -> Seq<char> {
    "BEGIN:VEVENT\r\n"@ + "UID:"@ + int_text(e.id as int) + "\r\n"@ + "SUMMARY:"@ + ics_escape(
        e.title@,
    ) + "\r\n"@ + (match e.description {
        Some(d) => "DESCRIPTION:"@ + ics_escape(d@) + "\r\n"@,
        None => Seq::empty(),
    }) + "DTSTART:"@ + start + "\r\n"@ + "DTEND:"@ + end + "\r\n"@ + "END:VEVENT\r\n"@
}

fn event_text(e: &CalendarEvent, start: &String, end: &String) -> (r: Vec<char>)
    ensures
        r@ == event_block(*e, start@, end@),
{
    let mut out: Vec<char> = Vec::new();
    push_text(&mut out, "BEGIN:VEVENT\r\n");
    push_text(&mut out, "UID:");
    push_text(&mut out, i64_text(e.id).as_str());
    push_text(&mut out, "\r\n");
    push_text(&mut out, "SUMMARY:");
    push_text(&mut out, escape_ics_text(e.title.as_str()).as_str());
    push_text(&mut out, "\r\n");
    let ghost a = out@;
    assert(a =~= "BEGIN:VEVENT\r\n"@ + "UID:"@ + int_text(e.id as int) + "\r\n"@ + "SUMMARY:"@
        + ics_escape(e.title@) + "\r\n"@);
    let mut d: Vec<char> = Vec::new();
    match &e.description {
        Some(x) => {
            push_text(&mut d, "DESCRIPTION:");
            push_text(&mut d, escape_ics_text(x.as_str()).as_str());
            push_text(&mut d, "\r\n");
            assert(d@ =~= "DESCRIPTION:"@ + ics_escape(x@) + "\r\n"@);
        },
        None => {
            assert(d@ =~= Seq::<char>::empty());
        },
    }
    let mut t: Vec<char> = Vec::new();
    push_text(&mut t, "DTSTART:");
    push_text(&mut t, start.as_str());
    push_text(&mut t, "\r\n");
    push_text(&mut t, "DTEND:");
    push_text(&mut t, end.as_str());
    push_text(&mut t, "\r\n");
    push_text(&mut t, "END:VEVENT\r\n");
    assert(t@ =~= "DTSTART:"@ + start@ + "\r\n"@ + "DTEND:"@ + end@ + "\r\n"@ + "END:VEVENT\r\n"@);
    let mut r = out;
    let mut i: usize = 0;
    while i < d.len()
        invariant
            i <= d@.len(),
            r@ == a + d@.subrange(0, i as int),
        decreases d.len() - i,
    {
        r.push(d[i]);
        i = i + 1;
        assert(r@ =~= a + d@.subrange(0, i as int));
    }
    assert(d@.subrange(0, d@.len() as int) =~= d@);
    let ghost ad = r@;
    let mut j: usize = 0;
    while j < t.len()
        invariant
            j <= t@.len(),
            r@ == ad + t@.subrange(0, j as int),
        decreases t.len() - j,
    {
        r.push(t[j]);
        j = j + 1;
        assert(r@ =~= ad + t@.subrange(0, j as int));
    }
    assert(t@.subrange(0, t@.len() as int) =~= t@);
    assert(r@ =~= event_block(*e, start@, end@));
    r
}

/// The iCalendar document for events whose start and end stamps are
/// given: `stamps[i]` holds the stamps of `events[i]`.
pub fn calendar_text(events: &Vec<CalendarEvent>, stamps: &Vec<(String, String)>) -> (r: String)
    requires
        stamps@.len() == events@.len(),
    ensures
        r@ == ics_header() + blocks_with(events@, stamps@.map_values(|p: (String, String)| (p.0@, p.1@)))
            + "END:VCALENDAR\r\n"@,
{
    let ghost sv = stamps@.map_values(|p: (String, String)| (p.0@, p.1@));
    let mut out: Vec<char> = Vec::new();
    push_text(&mut out, "BEGIN:VCALENDAR\r\nVERSION:2.0\r\nPRODID:-//Play//Play MVP//EN\r\n");
    let mut i: usize = 0;
    while i < events.len()
        invariant
            i <= events@.len(),
            stamps@.len() == events@.len(),
            sv == stamps@.map_values(|p: (String, String)| (p.0@, p.1@)),
            out@ == ics_header() + blocks_with(events@.subrange(0, i as int), sv.subrange(0, i as int)),
        decreases events.len() - i,
    {
        let ghost pre_e = events@.subrange(0, i as int);
        let ghost cur_e = events@.subrange(0, i + 1);
        let ghost pre_s = sv.subrange(0, i as int);
        let ghost cur_s = sv.subrange(0, i + 1);
        assert(cur_e.drop_last() =~= pre_e);
        assert(cur_s.drop_last() =~= pre_s);
        let block = event_text(&events[i], &stamps[i].0, &stamps[i].1);
        let ghost base = out@;
        let mut bi: usize = 0;
        while bi < block.len()
            invariant
                bi <= block@.len(),
                out@ == base + block@.subrange(0, bi as int),
            decreases block.len() - bi,
        {
            out.push(block[bi]);
            bi = bi + 1;
            assert(out@ =~= base + block@.subrange(0, bi as int));
        }
        assert(block@.subrange(0, block@.len() as int) =~= block@);
        assert(blocks_with(cur_e, cur_s) == blocks_with(pre_e, pre_s) + event_block(events@[i as int], sv[i as int].0, sv[i as int].1));
        assert(out@ =~= ics_header() + blocks_with(cur_e, cur_s));
        i = i + 1;
    }
    assert(events@.subrange(0, events@.len() as int) =~= events@);
    assert(sv.subrange(0, sv.len() as int) =~= sv);
    push_text(&mut out, "END:VCALENDAR\r\n");
    string_of(&out)
}

/// The event blocks of `es` with the given stamps, in order.
pub open spec fn blocks_with(es: Seq<CalendarEvent>, st: Seq<(Seq<char>, Seq<char>)>) -> Seq<char>
    decreases es.len(),
{
    if es.len() == 0 || st.len() == 0 {
        Seq::empty()
    } else {
        blocks_with(es.drop_last(), st.drop_last()) + event_block(es.last(), st.last().0, st.last().1)
    }
}

/// Every event's start and end parse.
pub open spec fn all_stamps_parse(es: Seq<CalendarEvent>) -> bool {
    forall|i: int|
        0 <= i < es.len() ==> ics_stamp_of((#[trigger] es[i]).start_time@) is Some
            && ics_stamp_of(es[i].end_time@) is Some
}

/// The calendar header.
pub open spec fn ics_header() -> Seq<char> {
    "BEGIN:VCALENDAR\r\nVERSION:2.0\r\nPRODID:-//Play//Play MVP//EN\r\n"@
}

/// Exports and imports calendars.
pub struct ICSService;

impl ICSService {
    pub fn new() -> (r: ICSService) {
        ICSService
    }

    /// The iCalendar document for the events; fails when some event's
    /// start or end is not an RFC 3339 text.
    pub fn export_to_ics(&self, events: &Vec<CalendarEvent>) -> (r: Result<String, String>)
        ensures
            r is Ok <==> all_stamps_parse(events@),
            r matches Ok(s) ==> s@ == ics_header() + blocks_with(events@, stamps_of(events@))
                + "END:VCALENDAR\r\n"@,
    {
        let mut stamps: Vec<(String, String)> = Vec::new();
        let mut i: usize = 0;
        while i < events.len()
            invariant
                i <= events@.len(),
                stamps@.len() == i,
                all_stamps_parse(events@.subrange(0, i as int)),
                stamps@.map_values(|p: (String, String)| (p.0@, p.1@)) == stamps_of(events@.subrange(0, i as int)),
            decreases events.len() - i,
        {
            let ghost pre = events@.subrange(0, i as int);
            let ghost cur = events@.subrange(0, i + 1);
            assert(cur.drop_last() =~= pre);
            let e = &events[i];
            let start = match ics_datetime(e.start_time.as_str()) {
                Some(s) => s,
                None => {
                    assert(!all_stamps_parse(events@)) by {
                        assert(ics_stamp_of(events@[i as int].start_time@) is None);
                    }
                    return Err(string_of(&chars_of("invalid RFC 3339 date-time in event")));
                },
            };
            let end = match ics_datetime(e.end_time.as_str()) {
                Some(s) => s,
                None => {
                    assert(!all_stamps_parse(events@)) by {
                        assert(ics_stamp_of(events@[i as int].end_time@) is None);
                    }
                    return Err(string_of(&chars_of("invalid RFC 3339 date-time in event")));
                },
            };
            let ghost before = stamps@;
            stamps.push((start, end));
            assert(stamps@.map_values(|p: (String, String)| (p.0@, p.1@)) =~= before.map_values(
                |p: (String, String)| (p.0@, p.1@),
            ).push((stamps@[i as int].0@, stamps@[i as int].1@)));
            assert(all_stamps_parse(cur)) by {
                assert forall|k: int| 0 <= k < cur.len() implies ics_stamp_of((#[trigger] cur[k]).start_time@) is Some
                    && ics_stamp_of(cur[k].end_time@) is Some by {
                    if k < i {
                        assert(cur[k] == pre[k]);
                    }
                }
            }
            i = i + 1;
        }
        assert(events@.subrange(0, events@.len() as int) =~= events@);
        Ok(calendar_text(events, &stamps))
    }
}

/// The stamps of every event (meaningful where they parse).
pub open spec fn stamps_of(es: Seq<CalendarEvent>) -> Seq<(Seq<char>, Seq<char>)>
    decreases es.len(),
{
    if es.len() == 0 {
        Seq::empty()
    } else {
        stamps_of(es.drop_last()).push(
            (ics_stamp_of(es.last().start_time@)->Some_0, ics_stamp_of(es.last().end_time@)->Some_0),
        )
    }
}

/// The text without trailing `Z` characters.
pub open spec fn strip_zs(s: Seq<char>) -> Seq<char>
    decreases s.len(),
{
    if s.len() > 0 && s.last() == 'Z' {
        strip_zs(s.drop_last())
    } else {
        s
    }
}

/// The RFC 3339 form of an iCalendar stamp: from `YYYYMMDDTHHMMSS` (and any
/// trailing `Z`s), `YYYY-MM-DDTHH:MM:SSZ`.
pub open spec fn iso_of_stamp(c: Seq<char>) -> Seq<char> {
    c.subrange(0, 4) + seq!['-'] + c.subrange(4, 6) + seq!['-'] + c.subrange(6, 8) + seq!['T']
        + c.subrange(9, 11) + seq![':'] + c.subrange(11, 13) + seq![':'] + c.subrange(13, 15) + seq![
        'Z',
    ]
}

/// Turns an iCalendar stamp into RFC 3339 text; a stamp shorter than 15
/// characters (after dropping trailing `Z`s) is rejected.
pub fn parse_ics_to_iso(ics_datetime: &str) -> (r: Result<String, String>)
    ensures
        r is Ok <==> strip_zs(ics_datetime@).len() >= 15,
        r matches Ok(s) ==> s@ == iso_of_stamp(strip_zs(ics_datetime@)),
{
    let cs = chars_of(ics_datetime);
    let mut j: usize = cs.len();
    assert(cs@.subrange(0, cs@.len() as int) =~= cs@);
    while j > 0 && cs[j - 1] == 'Z'
        invariant
            j <= cs@.len(),
            strip_zs(cs@) == strip_zs(cs@.subrange(0, j as int)),
        decreases j,
    {
        assert(cs@.subrange(0, j as int).drop_last() =~= cs@.subrange(0, j - 1));
        j = j - 1;
    }
    let c = copy_range(&cs, 0, j);
    if c.len() < 15 {
        return Err(string_of(&chars_of("Invalid iCal datetime format")));
    }
    let ghost want = iso_of_stamp(c@);
    let mut out: Vec<char> = Vec::new();
    out.push(c[0]);
    out.push(c[1]);
    out.push(c[2]);
    out.push(c[3]);
    out.push('-');
    out.push(c[4]);
    out.push(c[5]);
    out.push('-');
    out.push(c[6]);
    out.push(c[7]);
    out.push('T');
    out.push(c[9]);
    out.push(c[10]);
    out.push(':');
    out.push(c[11]);
    out.push(c[12]);
    out.push(':');
    out.push(c[13]);
    out.push(c[14]);
    out.push('Z');
    assert(out@ =~= want);
    Ok(string_of(&out))
}

/// The fields that import reads into an event being built.
pub struct EventDraft {
    pub title: Seq<char>,
    pub description: Option<Seq<char>>,
    pub start: Seq<char>,
    pub end: Seq<char>,
}

/// What one trimmed line inside an event does to the event being read:
/// `None` when its date-time does not convert.
pub open spec fn draft_line(e: EventDraft, l: Seq<char>) -> Option<EventDraft> {
    if starts_with(l, "SUMMARY:"@) {
        Some(EventDraft { title: l.subrange(8, l.len() as int), ..e })
    } else if starts_with(l, "DESCRIPTION:"@) {
        Some(EventDraft { description: Some(l.subrange(12, l.len() as int)), ..e })
    } else if starts_with(l, "DTSTART:"@) {
        let v = strip_zs(l.subrange(8, l.len() as int));
        if v.len() >= 15 {
            Some(EventDraft { start: iso_of_stamp(v), ..e })
        } else {
            None
        }
    } else if starts_with(l, "DTEND:"@) {
        let v = strip_zs(l.subrange(6, l.len() as int));
        if v.len() >= 15 {
            Some(EventDraft { end: iso_of_stamp(v), ..e })
        } else {
            None
        }
    } else {
        Some(e)
    }
}

/// Import state after one more trimmed line.
pub open spec fn import_line(
    done: Seq<EventDraft>,
    cur: Option<EventDraft>,
    l: Seq<char>,
) -> Option<(Seq<EventDraft>, Option<EventDraft>)> {
    if l == "BEGIN:VEVENT"@ {
        Some((done, Some(EventDraft { title: Seq::empty(), description: None, start: Seq::empty(), end: Seq::empty() })))
    } else if l == "END:VEVENT"@ {
        match cur {
            Some(e) => Some((done.push(e), None)),
            None => Some((done, None)),
        }
    } else {
        match cur {
            None => Some((done, None)),
            Some(e) => match draft_line(e, l) {
                Some(d) => Some((done, Some(d))),
                None => None,
            },
        }
    }
}

/// Import state after the first `n` lines: the events finished so far and
/// the one being read, if any; `None` once a date-time failed to convert.
pub open spec fn import_state(ls: Seq<Seq<char>>, n: int) -> Option<(Seq<EventDraft>, Option<EventDraft>)>
    decreases n,
{
    if n <= 0 {
        Some((Seq::empty(), None))
    } else {
        match import_state(ls, n - 1) {
            None => None,
            Some((done, cur)) => import_line(done, cur, trim(ls[n - 1])),
        }
    }
}

proof fn lemma_import_failed_stays(ls: Seq<Seq<char>>, n: int, m: int)
    requires
        0 <= n <= m,
        import_state(ls, n) is None,
    ensures
        import_state(ls, m) is None,
    decreases m - n,
{
    if m > n {
        lemma_import_failed_stays(ls, n, m - 1);
    }
}

/// `ev` holds what the draft holds, with no id, reminder or recurrence,
/// created at `now`.
pub open spec fn event_from_draft(ev: CalendarEvent, d: EventDraft, now: Seq<char>) -> bool {
    &&& ev.id == 0
    &&& ev.title@ == d.title
    &&& match ev.description {
        Some(x) => d.description == Some(x@),
        None => d.description is None,
    }
    &&& ev.start_time@ == d.start
    &&& ev.end_time@ == d.end
    &&& ev.reminder_time is None
    &&& ev.recurrence is None
    &&& ev.created_at@ == now
}

struct DraftExec {
    title: String,
    description: Option<String>,
    start: String,
    end: String,
}

impl DraftExec {
    spec fn view_draft(&self) -> EventDraft {
        EventDraft {
            title: self.title@,
            description: match self.description {
                Some(x) => Some(x@),
                None => None,
            },
            start: self.start@,
            end: self.end@,
        }
    }
}

fn rest_of(l: &Vec<char>, k: usize) -> (r: String)
    requires
        k <= l@.len(),
    ensures
        r@ == l@.subrange(k as int, l@.len() as int),
{
    string_of(&copy_range(l, k, l.len()))
}

impl ICSService {
    /// Reads the events of an iCalendar text: each `BEGIN:VEVENT` ...
    /// `END:VEVENT` block gives one event with its summary, description,
    /// start and end; lines are trimmed, other lines ignored. A start or end
    /// stamp that does not convert fails the whole import.
    pub fn import_from_ics(&self, ics_content: &str, now: &str) -> (r: Result<Vec<CalendarEvent>, String>)
        ensures
            r is Ok <==> import_state(lines_of(ics_content@), lines_of(ics_content@).len() as int) is Some,
            r matches Ok(evs) ==> {
                let done = import_state(lines_of(ics_content@), lines_of(ics_content@).len() as int)->Some_0.0;
                &&& evs@.len() == done.len()
                &&& forall|i: int| 0 <= i < done.len() ==> event_from_draft(#[trigger] evs@[i], done[i], now@)
            },
    {
        let cs = chars_of(ics_content);
        let ls = split_lines(&cs);
        let ghost lv = lines_of(ics_content@);
        assert(texts(ls@) =~= lv);
        let mut events: Vec<CalendarEvent> = Vec::new();
        let mut cur: Option<DraftExec> = None;
        let mut i: usize = 0;
        while i < ls.len()
            invariant
                i <= ls@.len(),
                texts(ls@) == lv,
                lv == lines_of(ics_content@),
                import_state(lv, i as int) is Some,
                events@.len() == import_state(lv, i as int)->Some_0.0.len(),
                forall|k: int| 0 <= k < events@.len() ==> event_from_draft(#[trigger] events@[k], import_state(lv, i as int)->Some_0.0[k], now@),
                match cur {
                    Some(d) => import_state(lv, i as int)->Some_0.1 == Some(d.view_draft()),
                    None => import_state(lv, i as int)->Some_0.1 is None,
                },
            decreases ls.len() - i,
        {
            assert(ls@[i as int]@ == lv[i as int]);
            let l = trim_chars(&ls[i]);
            let ghost before = events@;
            if crate::text::chars_eq(&l, &chars_of("BEGIN:VEVENT")) {
                cur = Some(DraftExec { title: string_of(&Vec::new()), description: None, start: string_of(&Vec::new()), end: string_of(&Vec::new()) });
                assert(cur->Some_0.view_draft() == EventDraft { title: Seq::empty(), description: None, start: Seq::empty(), end: Seq::empty() });
            } else if crate::text::chars_eq(&l, &chars_of("END:VEVENT")) {
                match cur {
                    Some(d) => {
                        let ev = CalendarEvent {
                            id: 0,
                            title: d.title,
                            description: d.description,
                            start_time: d.start,
                            end_time: d.end,
                            reminder_time: None,
                            recurrence: None,
                            created_at: string_of(&chars_of(now)),
                        };
                        events.push(ev);
                        assert forall|k: int| 0 <= k < events@.len() implies event_from_draft(#[trigger] events@[k], import_state(lv, i + 1)->Some_0.0[k], now@) by {
                            if k < before.len() {
                                assert(events@[k] == before[k]);
                            }
                        }
                    },
                    None => {},
                }
                cur = None;
            } else {
                match cur {
                    None => {},
                    Some(d) => {
                        let mut d = d;
                        if starts_with_exec(&l, "SUMMARY:") {
                            proof { reveal_strlit("SUMMARY:"); }
                            d.title = rest_of(&l, 8);
                        } else if starts_with_exec(&l, "DESCRIPTION:") {
                            proof { reveal_strlit("DESCRIPTION:"); }
                            d.description = Some(rest_of(&l, 12));
                        } else if starts_with_exec(&l, "DTSTART:") {
                            proof { reveal_strlit("DTSTART:"); }
                            let v = rest_of(&l, 8);
                            match parse_ics_to_iso(v.as_str()) {
                                Ok(x) => {
                                    d.start = x;
                                },
                                Err(e) => {
                                    proof {
                                        assert(import_state(lv, i + 1) is None);
                                        lemma_import_failed_stays(lv, i + 1, lv.len() as int);
                                    }
                                    return Err(e);
                                },
                            }
                        } else if starts_with_exec(&l, "DTEND:") {
                            proof { reveal_strlit("DTEND:"); }
                            let v = rest_of(&l, 6);
                            match parse_ics_to_iso(v.as_str()) {
                                Ok(x) => {
                                    d.end = x;
                                },
                                Err(e) => {
                                    proof {
                                        assert(import_state(lv, i + 1) is None);
                                        lemma_import_failed_stays(lv, i + 1, lv.len() as int);
                                    }
                                    return Err(e);
                                },
                            }
                        }
                        cur = Some(d);
                    },
                }
            }
            i = i + 1;
        }
        Ok(events)
    }
}

/// Sends notifications to the desktop.
pub struct NotificationService;

impl NotificationService {
    pub fn new() -> (r: NotificationService) {
        NotificationService
    }
}

} // verus!
