//! Service alerts as rows. An alert has periods, the entities it informs of,
//! and texts in several languages; it becomes one row for each combination
//! of period, entity and language, with a missing value standing in for an
//! empty list so that every alert gives at least one row.

use crate::model::{
    Alert, EntitySelector, FeedMessage, SpecAlert, SpecEntitySelector, SpecFeedEntity,
    SpecFeedMessage, SpecTimeRange, SpecTranslatedString, SpecTranslation, TimeRange,
    TranslatedString,
};
use crate::rows::{
    clone_opt, concat_map, lemma_concat_map_all, lemma_concat_map_all_satisfy, lemma_concat_map_len,
    lemma_concat_map_take, or_none,
};
use crate::dedup::{lemma_next_id_fresh, next_id, note_replacement, take_id, IdDeduplicator, ReplacedId};
use vstd::prelude::*;

verus! {

/// Whether two optional strings are equal.
pub fn compare_opts(o1: &Option<String>, o2: &Option<String>) -> (r: bool)
    ensures
        r == (o1.deep_view() == o2.deep_view()),
{
    match o1 {
        None => match o2 {
            None => true,
            Some(_) => false,
        },
        Some(x) => match o2 {
            None => false,
            Some(y) => x.eq(y),
        },
    }
}

/// The languages of the translations of a text, in order.
pub open spec fn ts_languages(ts: Option<SpecTranslatedString>) -> Seq<Option<Seq<char>>> {
    match ts {
        Some(t) => t.translation.map_values(|tr: SpecTranslation| tr.language),
        None => Seq::empty(),
    }
}

/// `acc` followed by those of `items` not met before, each once, in order.
pub open spec fn add_distinct<T>(acc: Seq<T>, items: Seq<T>) -> Seq<T>
    decreases items.len(),
{
    if items.len() == 0 {
        acc
    } else {
        let p = add_distinct(acc, items.drop_last());
        if p.contains(items.last()) {
            p
        } else {
            p.push(items.last())
        }
    }
}

/// Adds the languages of `translated_string` that are not yet in `set`.
pub fn accumulate_languages(set: &mut Vec<Option<String>>, translated_string: &Option<TranslatedString>)
    ensures
        final(set).deep_view() == add_distinct(old(set).deep_view(), ts_languages(translated_string.deep_view())),
{
    match translated_string {
        None => {},
        Some(ts) => {
            let trs = &ts.translation;
            let ghost items = ts_languages(translated_string.deep_view());
            let ghost acc = set.deep_view();
            let mut i: usize = 0;
            assert(items.take(0) =~= Seq::<Option<Seq<char>>>::empty());
            while i < trs.len()
                invariant
                    0 <= i <= trs@.len(),
                    items == trs.deep_view().map_values(|tr: SpecTranslation| tr.language),
                    set.deep_view() == add_distinct(acc, items.take(i as int)),
                decreases trs@.len() - i,
            {
                let lang = &trs[i].language;
                assert(items.take(i + 1).drop_last() =~= items.take(i as int));
                assert(items.take(i + 1).last() == lang.deep_view());
                let mut found = false;
                let mut k: usize = 0;
                while k < set.len()
                    invariant
                        0 <= k <= set@.len(),
                        found == exists|q: int| 0 <= q < k && set.deep_view()[q] == lang.deep_view(),
                    decreases set@.len() - k,
                {
                    assert(set.deep_view()[k as int] == set@[k as int].deep_view());
                    if compare_opts(&set[k], lang) {
                        found = true;
                    }
                    k += 1;
                }
                if !found {
                    let ghost before = set.deep_view();
                    let l = clone_opt(lang);
                    set.push(l);
                    assert(set.deep_view() =~= before.push(lang.deep_view()));
                } else {
                    proof {
                        let q = choose|q: int|
                            0 <= q < set@.len() && set.deep_view()[q] == lang.deep_view();
                        assert(set.deep_view().contains(lang.deep_view()));
                    }
                }
                i += 1;
            }
            assert(items.take(trs@.len() as int) =~= items);
        },
    }
}

/// The first text among the translations that is in language `lang`.
pub open spec fn first_text(trs: Seq<SpecTranslation>, lang: Option<Seq<char>>) -> Option<Seq<char>>
    decreases trs.len(),
{
    if trs.len() == 0 {
        None
    } else if trs[0].language == lang {
        Some(trs[0].text)
    } else {
        first_text(trs.drop_first(), lang)
    }
}

/// The text of `translated_string` in language `lang`, if it has one.
pub open spec fn text_for(lang: Option<Seq<char>>, translated_string: Option<SpecTranslatedString>) -> Option<Seq<char>> {
    match translated_string {
        None => None,
        Some(t) => first_text(t.translation, lang),
    }
}

/// The text found for a language is that of a translation in that
/// language, the first one there is; there is none exactly when no
/// translation is in that language.
pub proof fn lemma_first_text_in_language(trs: Seq<SpecTranslation>, lang: Option<Seq<char>>)
    ensures
        first_text(trs, lang) matches Some(t) ==> exists|i: int|
            0 <= i < trs.len() && (#[trigger] trs[i]).language == lang && trs[i].text == t && forall|j: int|
                0 <= j < i ==> (#[trigger] trs[j]).language != lang,
        first_text(trs, lang) is None <==> forall|i: int| 0 <= i < trs.len() ==> (#[trigger] trs[i]).language
            != lang,
    decreases trs.len(),
{
    if trs.len() > 0 {
        let rest = trs.drop_first();
        lemma_first_text_in_language(rest, lang);
        if trs[0].language == lang {
            assert(trs[0].language == lang && trs[0].text == trs[0].text);
        } else {
            assert forall|i: int| 1 <= i < trs.len() implies trs[i] == rest[i - 1] by {}
            if let Some(t) = first_text(rest, lang) {
                let k = choose|k: int|
                    0 <= k < rest.len() && (#[trigger] rest[k]).language == lang && rest[k].text == t && forall|
                        j: int,
                    |
                        0 <= j < k ==> (#[trigger] rest[j]).language != lang;
                assert(trs[k + 1] == rest[k]);
                assert forall|j: int| 0 <= j < k + 1 implies (#[trigger] trs[j]).language != lang by {
                    if j > 0 {
                        assert(trs[j] == rest[j - 1]);
                    }
                }
            } else {
                assert forall|i: int| 0 <= i < trs.len() implies (#[trigger] trs[i]).language != lang by {
                    if i > 0 {
                        assert(trs[i] == rest[i - 1]);
                    }
                }
            }
            if first_text(trs, lang) is None {
            } else {
                assert(!(forall|i: int| 0 <= i < trs.len() ==> (#[trigger] trs[i]).language != lang));
            }
        }
    }
}

/// The text of a translated string in a language: that of its first
/// translation in the language, none where it has none in it (or there is
/// no text at all).
pub proof fn lemma_text_for_language(lang: Option<Seq<char>>, ts: Option<SpecTranslatedString>)
    ensures
        ts is None ==> text_for(lang, ts) is None,
        ts matches Some(x) ==> (text_for(lang, ts) matches Some(t) ==> exists|i: int|
            0 <= i < x.translation.len() && (#[trigger] x.translation[i]).language == lang
                && x.translation[i].text == t),
        ts matches Some(x) ==> (text_for(lang, ts) is None <==> forall|i: int|
            0 <= i < x.translation.len() ==> (#[trigger] x.translation[i]).language != lang),
{
    if let Some(x) = ts {
        lemma_first_text_in_language(x.translation, lang);
    }
}

/// The text of `translated_string` in language `lang`, if it has one.
pub fn message_for_language(lang: &Option<String>, translated_string: &Option<TranslatedString>) -> (r: Option<String>)
    ensures
        r.deep_view() == text_for(lang.deep_view(), translated_string.deep_view()),
{
    match translated_string {
        None => None,
        Some(ts) => {
            let trs = &ts.translation;
            let mut i: usize = 0;
            assert(trs.deep_view().skip(0) =~= trs.deep_view());
            while i < trs.len()
                invariant
                    0 <= i <= trs@.len(),
                    text_for(lang.deep_view(), translated_string.deep_view()) == first_text(
                        trs.deep_view(),
                        lang.deep_view(),
                    ),
                    first_text(trs.deep_view(), lang.deep_view()) == first_text(
                        trs.deep_view().skip(i as int),
                        lang.deep_view(),
                    ),
                decreases trs@.len() - i,
            {
                assert(trs.deep_view().skip(i as int).drop_first() =~= trs.deep_view().skip(i + 1));
                assert(trs.deep_view().skip(i as int)[0] == trs.deep_view()[i as int]);
                assert(trs.deep_view()[i as int] == trs@[i as int].deep_view());
                if compare_opts(&trs[i].language, lang) {
                    let t = trs[i].text.clone();
                    assert(first_text(trs.deep_view().skip(i as int), lang.deep_view()) == Some(t@));
                    return Some(t);
                }
                i += 1;
            }
            assert(trs.deep_view().skip(i as int) =~= Seq::<SpecTranslation>::empty());
            None
        },
    }
}

/// The languages an alert is given in: those of its texts, each once, in the
/// order first met; a single missing language if its texts have none.
pub open spec fn alert_languages(a: SpecAlert) -> Seq<Option<Seq<char>>> {
    let l0 = add_distinct(Seq::empty(), ts_languages(a.cause_detail));
    let l1 = add_distinct(l0, ts_languages(a.effect_detail));
    let l2 = add_distinct(l1, ts_languages(a.url));
    let l3 = add_distinct(l2, ts_languages(a.header_text));
    let l4 = add_distinct(l3, ts_languages(a.description_text));
    let l5 = add_distinct(l4, ts_languages(a.tts_header_text));
    let l6 = add_distinct(l5, ts_languages(a.tts_description_text));
    let l7 = add_distinct(l6, ts_languages(a.image_alternative_text));
    if l7.len() == 0 {
        seq![None]
    } else {
        l7
    }
}

fn alert_languages_of(a: &Alert) -> (langs: Vec<Option<String>>)
    ensures
        langs.deep_view() == alert_languages(a.deep_view()),
{
    let mut languages: Vec<Option<String>> = Vec::new();
    assert(languages.deep_view() =~= Seq::<Option<Seq<char>>>::empty());
    accumulate_languages(&mut languages, &a.cause_detail);
    accumulate_languages(&mut languages, &a.effect_detail);
    accumulate_languages(&mut languages, &a.url);
    accumulate_languages(&mut languages, &a.header_text);
    accumulate_languages(&mut languages, &a.description_text);
    accumulate_languages(&mut languages, &a.tts_header_text);
    accumulate_languages(&mut languages, &a.tts_description_text);
    accumulate_languages(&mut languages, &a.image_alternative_text);
    if languages.len() == 0 {
        languages.push(None);
        assert(languages.deep_view() =~= seq![None::<Seq<char>>]);
    }
    languages
}

/// One alert, for one of its periods, one of the entities it informs of, and
/// one of its languages.
pub struct RAlert {
    pub file_index: usize,
    pub feed_index: i32,
    pub id: String,
    pub start: Option<u64>,
    pub end: Option<u64>,
    pub agency_id: Option<String>,
    pub route_id: Option<String>,
    pub route_type: Option<i32>,
    pub direction_id: Option<u32>,
    pub trip_trip_id: Option<String>,
    pub trip_route_id: Option<String>,
    pub trip_direction_id: Option<u32>,
    pub trip_start_time: Option<String>,
    pub trip_start_date: Option<String>,
    pub trip_schedule_relationship: Option<i32>,
    pub trip_modification_id: Option<String>,
    pub stop_id: Option<String>,
    pub cause: Option<i32>,
    pub effect: Option<i32>,
    pub language: Option<String>,
    pub cause_detail: Option<String>,
    pub effect_detail: Option<String>,
    pub url: Option<String>,
    pub header_text: Option<String>,
    pub description_text: Option<String>,
    pub tts_header_text: Option<String>,
    pub tts_description_text: Option<String>,
    pub severity_level: Option<i32>,
}

/// The value of an `RAlert`.
#[verifier::ext_equal]
pub struct SpecRAlert {
    pub file_index: nat,
    pub feed_index: i32,
    pub id: Seq<char>,
    pub start: Option<u64>,
    pub end: Option<u64>,
    pub agency_id: Option<Seq<char>>,
    pub route_id: Option<Seq<char>>,
    pub route_type: Option<i32>,
    pub direction_id: Option<u32>,
    pub trip_trip_id: Option<Seq<char>>,
    pub trip_route_id: Option<Seq<char>>,
    pub trip_direction_id: Option<u32>,
    pub trip_start_time: Option<Seq<char>>,
    pub trip_start_date: Option<Seq<char>>,
    pub trip_schedule_relationship: Option<i32>,
    pub trip_modification_id: Option<Seq<char>>,
    pub stop_id: Option<Seq<char>>,
    pub cause: Option<i32>,
    pub effect: Option<i32>,
    pub language: Option<Seq<char>>,
    pub cause_detail: Option<Seq<char>>,
    pub effect_detail: Option<Seq<char>>,
    pub url: Option<Seq<char>>,
    pub header_text: Option<Seq<char>>,
    pub description_text: Option<Seq<char>>,
    pub tts_header_text: Option<Seq<char>>,
    pub tts_description_text: Option<Seq<char>>,
    pub severity_level: Option<i32>,
}

impl DeepView for RAlert {
    type V = SpecRAlert;

    open spec fn deep_view(&self) -> SpecRAlert {
        SpecRAlert {
            file_index: self.file_index as nat,
            feed_index: self.feed_index,
            id: self.id@,
            start: self.start,
            end: self.end,
            agency_id: self.agency_id.deep_view(),
            route_id: self.route_id.deep_view(),
            route_type: self.route_type,
            direction_id: self.direction_id,
            trip_trip_id: self.trip_trip_id.deep_view(),
            trip_route_id: self.trip_route_id.deep_view(),
            trip_direction_id: self.trip_direction_id,
            trip_start_time: self.trip_start_time.deep_view(),
            trip_start_date: self.trip_start_date.deep_view(),
            trip_schedule_relationship: self.trip_schedule_relationship,
            trip_modification_id: self.trip_modification_id.deep_view(),
            stop_id: self.stop_id.deep_view(),
            cause: self.cause,
            effect: self.effect,
            language: self.language.deep_view(),
            cause_detail: self.cause_detail.deep_view(),
            effect_detail: self.effect_detail.deep_view(),
            url: self.url.deep_view(),
            header_text: self.header_text.deep_view(),
            description_text: self.description_text.deep_view(),
            tts_header_text: self.tts_header_text.deep_view(),
            tts_description_text: self.tts_description_text.deep_view(),
            severity_level: self.severity_level,
        }
    }
}

/// The row of alert `a` (entity `id` of file `fi`) for period `r`, informed
/// entity `e` and language `lang`.
pub open spec fn alert_row(
    fi: nat,
    idx: nat,
    id: Seq<char>,
    a: SpecAlert,
    r: Option<SpecTimeRange>,
    e: Option<SpecEntitySelector>,
    lang: Option<Seq<char>>,
) -> SpecRAlert {
    let trip = match e {
        Some(x) => x.trip,
        None => None,
    };
    SpecRAlert {
        file_index: fi,
        feed_index: idx as i32,
        id: id,
        start: match r {
            Some(x) => x.start,
            None => None,
        },
        end: match r {
            Some(x) => x.end,
            None => None,
        },
        agency_id: match e {
            Some(x) => x.agency_id,
            None => None,
        },
        route_id: match e {
            Some(x) => x.route_id,
            None => None,
        },
        route_type: match e {
            Some(x) => x.route_type,
            None => None,
        },
        direction_id: match e {
            Some(x) => x.direction_id,
            None => None,
        },
        trip_trip_id: match trip {
            Some(t) => t.trip_id,
            None => None,
        },
        trip_route_id: match trip {
            Some(t) => t.route_id,
            None => None,
        },
        trip_direction_id: match trip {
            Some(t) => t.direction_id,
            None => None,
        },
        trip_start_time: match trip {
            Some(t) => t.start_time,
            None => None,
        },
        trip_start_date: match trip {
            Some(t) => t.start_date,
            None => None,
        },
        trip_schedule_relationship: match trip {
            Some(t) => t.schedule_relationship,
            None => None,
        },
        trip_modification_id: match trip {
            Some(t) => match t.modified_trip {
                Some(m) => m.modifications_id,
                None => None,
            },
            None => None,
        },
        stop_id: match e {
            Some(x) => x.stop_id,
            None => None,
        },
        cause: a.cause,
        effect: a.effect,
        language: lang,
        cause_detail: text_for(lang, a.cause_detail),
        effect_detail: text_for(lang, a.effect_detail),
        url: text_for(lang, a.url),
        header_text: text_for(lang, a.header_text),
        description_text: text_for(lang, a.description_text),
        tts_header_text: text_for(lang, a.tts_header_text),
        tts_description_text: text_for(lang, a.tts_description_text),
        severity_level: a.severity_level,
    }
}

/// The rows for one period and one informed entity: one per language.
pub open spec fn language_rows(
    fi: nat,
    idx: nat,
    id: Seq<char>,
    a: SpecAlert,
    r: Option<SpecTimeRange>,
    e: Option<SpecEntitySelector>,
) -> Seq<SpecRAlert> {
    alert_languages(a).map_values(|l: Option<Seq<char>>| alert_row(fi, idx, id, a, r, e, l))
}

pub open spec fn language_rows_of(fi: nat, idx: nat, id: Seq<char>, a: SpecAlert, r: Option<SpecTimeRange>) -> spec_fn(
    Option<SpecEntitySelector>,
) -> Seq<SpecRAlert> {
    |e: Option<SpecEntitySelector>| language_rows(fi, idx, id, a, r, e)
}

/// The rows for one period: for each informed entity (or none), its rows.
pub open spec fn period_rows(fi: nat, idx: nat, id: Seq<char>, a: SpecAlert, r: Option<SpecTimeRange>) -> Seq<
    SpecRAlert,
> {
    concat_map(or_none(a.informed_entity), language_rows_of(fi, idx, id, a, r))
}

pub open spec fn period_rows_of(fi: nat, idx: nat, id: Seq<char>, a: SpecAlert) -> spec_fn(
    Option<SpecTimeRange>,
) -> Seq<SpecRAlert> {
    |r: Option<SpecTimeRange>| period_rows(fi, idx, id, a, r)
}

/// The rows of one alert: for each period (or none), its rows.
pub open spec fn alert_rows(fi: nat, idx: nat, id: Seq<char>, a: SpecAlert) -> Seq<SpecRAlert> {
    concat_map(or_none(a.active_period), period_rows_of(fi, idx, id, a))
}

/// Reading the entities of file `fi` in order: the ids handed out (a
/// repeated id is replaced), the rows, and the ids that were replaced. Each
/// alert is numbered by how many come before it in the file.
pub open spec fn alert_file(fi: nat, es: Seq<SpecFeedEntity>) -> (
    Seq<Seq<char>>,
    Seq<SpecRAlert>,
    Seq<(Seq<char>, Seq<char>)>,
)
    decreases es.len(),
{
    if es.len() == 0 {
        (Seq::empty(), Seq::empty(), Seq::empty())
    } else {
        let prev = alert_file(fi, es.drop_last());
        let e = es.last();
        match e.alert {
            None => prev,
            Some(a) => {
                let id = next_id(prev.0, e.id);
                (
                    prev.0.push(id),
                    prev.1 + alert_rows(fi, prev.0.len(), id, a),
                    note_replacement(prev.2, e.id, id),
                )
            },
        }
    }
}

/// The rows and replaced ids of the feeds, file after file.
pub open spec fn alerts_rows(feeds: Seq<SpecFeedMessage>) -> (
    Seq<SpecRAlert>,
    Seq<(Seq<char>, Seq<char>)>,
)
    decreases feeds.len(),
{
    if feeds.len() == 0 {
        (Seq::empty(), Seq::empty())
    } else {
        let prev = alerts_rows(feeds.drop_last());
        let f = alert_file((feeds.len() - 1) as nat, feeds.last().entity);
        (prev.0 + f.1, prev.1 + f.2)
    }
}

fn alert_row_of(
    fi: usize,
    idx: usize,
    id: &String,
    a: &Alert,
    r: Option<&TimeRange>,
    e: Option<&EntitySelector>,
    lang: &Option<String>,
) -> (row: RAlert)
    ensures
        row.deep_view() == alert_row(
            fi as nat,
            idx as nat,
            id@,
            a.deep_view(),
            match r {
                Some(x) => Some(x.deep_view()),
                None => None,
            },
            match e {
                Some(x) => Some(x.deep_view()),
                None => None,
            },
            lang.deep_view(),
        ),
{
    let (start, end) = match r {
        Some(x) => (x.start, x.end),
        None => (None, None),
    };
    let (agency_id, route_id, route_type, direction_id, stop_id) = match e {
        Some(x) => (
            clone_opt(&x.agency_id),
            clone_opt(&x.route_id),
            x.route_type,
            x.direction_id,
            clone_opt(&x.stop_id),
        ),
        None => (None, None, None, None, None),
    };
    let trip = match e {
        Some(x) => match &x.trip {
            Some(t) => Some(t),
            None => None,
        },
        None => None,
    };
    let (trip_trip_id, trip_route_id, trip_direction_id, trip_start_time, trip_start_date) =
        match trip {
        Some(t) => (
            clone_opt(&t.trip_id),
            clone_opt(&t.route_id),
            t.direction_id,
            clone_opt(&t.start_time),
            clone_opt(&t.start_date),
        ),
        None => (None, None, None, None, None),
    };
    let (trip_schedule_relationship, trip_modification_id) = match trip {
        Some(t) => (
            t.schedule_relationship,
            match &t.modified_trip {
                Some(m) => clone_opt(&m.modifications_id),
                None => None,
            },
        ),
        None => (None, None),
    };
    RAlert {
        file_index: fi,
        feed_index: idx as i32,
        id: id.clone(),
        start,
        end,
        agency_id,
        route_id,
        route_type,
        direction_id,
        trip_trip_id,
        trip_route_id,
        trip_direction_id,
        trip_start_time,
        trip_start_date,
        trip_schedule_relationship,
        trip_modification_id,
        stop_id,
        cause: a.cause,
        effect: a.effect,
        language: clone_opt(lang),
        cause_detail: message_for_language(lang, &a.cause_detail),
        effect_detail: message_for_language(lang, &a.effect_detail),
        url: message_for_language(lang, &a.url),
        header_text: message_for_language(lang, &a.header_text),
        description_text: message_for_language(lang, &a.description_text),
        tts_header_text: message_for_language(lang, &a.tts_header_text),
        tts_description_text: message_for_language(lang, &a.tts_description_text),
        severity_level: a.severity_level,
    }
}

fn push_language_rows(
    fi: usize,
    idx: usize,
    id: &String,
    a: &Alert,
    r: Option<&TimeRange>,
    e: Option<&EntitySelector>,
    langs: &Vec<Option<String>>,
    rows: &mut Vec<RAlert>,
)
    requires
        langs.deep_view() == alert_languages(a.deep_view()),
    ensures
        final(rows).deep_view() == old(rows).deep_view() + language_rows(
            fi as nat,
            idx as nat,
            id@,
            a.deep_view(),
            match r {
                Some(x) => Some(x.deep_view()),
                None => None,
            },
            match e {
                Some(x) => Some(x.deep_view()),
                None => None,
            },
        ),
{
    let ghost rv = match r {
        Some(x) => Some(x.deep_view()),
        None => None,
    };
    let ghost ev = match e {
        Some(x) => Some(x.deep_view()),
        None => None,
    };
    let ghost f = |l: Option<Seq<char>>| alert_row(fi as nat, idx as nat, id@, a.deep_view(), rv, ev, l);
    let ghost before = rows.deep_view();
    let mut k: usize = 0;
    while k < langs.len()
        invariant
            0 <= k <= langs@.len(),
            f == (|l: Option<Seq<char>>| alert_row(fi as nat, idx as nat, id@, a.deep_view(), rv, ev, l)),
            rv == match r {
                Some(x) => Some(x.deep_view()),
                None => None::<SpecTimeRange>,
            },
            ev == match e {
                Some(x) => Some(x.deep_view()),
                None => None::<SpecEntitySelector>,
            },
            rows.deep_view() == before + langs.deep_view().take(k as int).map_values(f),
        decreases langs@.len() - k,
    {
        let row = alert_row_of(fi, idx, id, a, r, e, &langs[k]);
        let ghost prev = rows.deep_view();
        let ghost w = row.deep_view();
        rows.push(row);
        assert(rows.deep_view() =~= prev.push(w));
        assert(langs.deep_view().take(k + 1).map_values(f) =~= langs.deep_view().take(
            k as int,
        ).map_values(f).push(w));
        k += 1;
    }
    assert(langs.deep_view().take(langs@.len() as int) =~= langs.deep_view());
}

fn push_period_rows(
    fi: usize,
    idx: usize,
    id: &String,
    a: &Alert,
    r: Option<&TimeRange>,
    langs: &Vec<Option<String>>,
    rows: &mut Vec<RAlert>,
)
    requires
        langs.deep_view() == alert_languages(a.deep_view()),
    ensures
        final(rows).deep_view() == old(rows).deep_view() + period_rows(
            fi as nat,
            idx as nat,
            id@,
            a.deep_view(),
            match r {
                Some(x) => Some(x.deep_view()),
                None => None,
            },
        ),
{
    let ghost av = a.deep_view();
    let ghost rv = match r {
        Some(x) => Some(x.deep_view()),
        None => None,
    };
    let ghost f = language_rows_of(fi as nat, idx as nat, id@, av, rv);
    let ghost before = rows.deep_view();
    let ents = &a.informed_entity;
    if ents.len() == 0 {
        push_language_rows(fi, idx, id, a, r, None, langs, rows);
        proof {
            let xs = or_none(av.informed_entity);
            assert(av.informed_entity.len() == 0);
            assert(xs =~= seq![None::<SpecEntitySelector>]);
            assert(xs.drop_last() =~= Seq::<Option<SpecEntitySelector>>::empty());
            assert(xs.last() == None::<SpecEntitySelector>);
            assert(concat_map(xs.drop_last(), f) =~= Seq::<SpecRAlert>::empty());
            assert(concat_map(xs, f) =~= f(None));
        }
        return;
    }
    let ghost xs = or_none(av.informed_entity);
    assert(xs =~= ents.deep_view().map_values(|x: SpecEntitySelector| Some(x)));
    let mut j: usize = 0;
    assert(xs.take(0) =~= Seq::<Option<SpecEntitySelector>>::empty());
    while j < ents.len()
        invariant
            0 <= j <= ents@.len(),
            ents == &a.informed_entity,
            av == a.deep_view(),
            xs == or_none(av.informed_entity),
            xs.len() == ents@.len(),
            forall|q: int| 0 <= q < xs.len() ==> #[trigger] xs[q] == Some(ents.deep_view()[q]),
            f == language_rows_of(fi as nat, idx as nat, id@, av, rv),
            rv == match r {
                Some(x) => Some(x.deep_view()),
                None => None::<SpecTimeRange>,
            },
            langs.deep_view() == alert_languages(a.deep_view()),
            rows.deep_view() == before + concat_map(xs.take(j as int), f),
        decreases ents@.len() - j,
    {
        proof {
            lemma_concat_map_take(xs, j as int, f);
        }
        push_language_rows(fi, idx, id, a, r, Some(&ents[j]), langs, rows);
        assert(xs[j as int] == Some(ents.deep_view()[j as int]));
        j += 1;
    }
    proof {
        lemma_concat_map_all(xs, f);
    }
}

fn push_alert_rows(fi: usize, idx: usize, id: &String, a: &Alert, rows: &mut Vec<RAlert>)
    ensures
        final(rows).deep_view() == old(rows).deep_view() + alert_rows(fi as nat, idx as nat, id@, a.deep_view()),
{
    let langs = alert_languages_of(a);
    let ghost av = a.deep_view();
    let ghost f = period_rows_of(fi as nat, idx as nat, id@, av);
    let ranges = &a.active_period;
    if ranges.len() == 0 {
        push_period_rows(fi, idx, id, a, None, &langs, rows);
        proof {
            let xs = or_none(av.active_period);
            assert(av.active_period.len() == 0);
            assert(xs =~= seq![None::<SpecTimeRange>]);
            assert(xs.drop_last() =~= Seq::<Option<SpecTimeRange>>::empty());
            assert(xs.last() == None::<SpecTimeRange>);
            assert(concat_map(xs.drop_last(), f) =~= Seq::<SpecRAlert>::empty());
            assert(concat_map(xs, f) =~= f(None));
        }
        return;
    }
    let ghost before = rows.deep_view();
    let ghost xs = or_none(av.active_period);
    assert(xs =~= ranges.deep_view().map_values(|x: SpecTimeRange| Some(x)));
    let mut j: usize = 0;
    assert(xs.take(0) =~= Seq::<Option<SpecTimeRange>>::empty());
    while j < ranges.len()
        invariant
            0 <= j <= ranges@.len(),
            ranges == &a.active_period,
            av == a.deep_view(),
            xs == or_none(av.active_period),
            xs.len() == ranges@.len(),
            forall|q: int| 0 <= q < xs.len() ==> #[trigger] xs[q] == Some(ranges.deep_view()[q]),
            f == period_rows_of(fi as nat, idx as nat, id@, av),
            langs.deep_view() == alert_languages(a.deep_view()),
            rows.deep_view() == before + concat_map(xs.take(j as int), f),
        decreases ranges@.len() - j,
    {
        proof {
            lemma_concat_map_take(xs, j as int, f);
        }
        push_period_rows(fi, idx, id, a, Some(&ranges[j]), &langs, rows);
        assert(xs[j as int] == Some(ranges.deep_view()[j as int]));
        j += 1;
    }
    proof {
        lemma_concat_map_all(xs, f);
    }
}

/// The service alerts of the feeds (the files of one archive, or one file),
/// as rows, with the ids that were replaced because they were met before in
/// their file.
pub fn read_gtfsrt_alerts_internal(feeds: &Vec<FeedMessage>) -> (res: (Vec<RAlert>, Vec<ReplacedId>))
    ensures
        res.0.deep_view() == alerts_rows(feeds.deep_view()).0,
        res.1.deep_view() == alerts_rows(feeds.deep_view()).1,
{
    let mut rows: Vec<RAlert> = Vec::new();
    let mut replaced: Vec<ReplacedId> = Vec::new();
    let mut i: usize = 0;
    while i < feeds.len()
        invariant
            0 <= i <= feeds@.len(),
            rows.deep_view() == alerts_rows(feeds.deep_view().take(i as int)).0,
            replaced.deep_view() == alerts_rows(feeds.deep_view().take(i as int)).1,
        decreases feeds@.len() - i,
    {
        let es = &feeds[i].entity;
        // ids are expected to be unique only within a file
        let mut dedup = IdDeduplicator::new();
        let ghost rows0 = rows.deep_view();
        let ghost replaced0 = replaced.deep_view();
        let mut j: usize = 0;
        assert(es.deep_view().take(0) =~= Seq::<SpecFeedEntity>::empty());
        assert(rows.deep_view() =~= rows0 + Seq::<SpecRAlert>::empty());
        assert(replaced.deep_view() =~= replaced0 + Seq::<(Seq<char>, Seq<char>)>::empty());
        while j < es.len()
            invariant
                0 <= j <= es@.len(),
                es == &feeds[i as int].entity,
                dedup@ == alert_file(i as nat, es.deep_view().take(j as int)).0,
                dedup@.len() <= j,
                rows.deep_view() == rows0 + alert_file(i as nat, es.deep_view().take(j as int)).1,
                replaced.deep_view() == replaced0 + alert_file(i as nat, es.deep_view().take(j as int)).2,
            decreases es@.len() - j,
        {
            let ghost esv = es.deep_view();
            assert(esv.take(j + 1).drop_last() =~= esv.take(j as int));
            assert(esv.take(j + 1).last() == esv[j as int]);
            let entity = &es[j];
            match &entity.alert {
                None => {},
                Some(a) => {
                    let idx = dedup.len();
                    let id = take_id(&mut dedup, &entity.id, &mut replaced);
                    assert(esv[j as int].id == entity.id@);
                    push_alert_rows(i, idx, &id, a, &mut rows);
                    assert(rows.deep_view() =~= rows0 + alert_file(i as nat, esv.take(j + 1)).1);
                    assert(replaced.deep_view() =~= replaced0 + alert_file(i as nat, esv.take(j + 1)).2);
                },
            }
            j += 1;
        }
        proof {
            let fs = feeds.deep_view();
            assert(es.deep_view().take(es@.len() as int) =~= es.deep_view());
            assert(fs.take(i + 1).drop_last() =~= fs.take(i as int));
            assert(fs.take(i + 1).last() == fs[i as int]);
        }
        i += 1;
    }
    assert(feeds.deep_view().take(feeds@.len() as int) =~= feeds.deep_view());
    (rows, replaced)
}

pub open spec fn has_id(id: Seq<char>, idx: nat) -> spec_fn(SpecRAlert) -> bool {
    |r: SpecRAlert| r.id == id && r.feed_index == idx as i32
}

/// An alert becomes one row for each combination of its active periods, the
/// entities it informs of and its languages (where one of these lists is
/// empty, it counts as a single missing value), and every row carries the
/// alert's id and its number in the file.
pub proof fn lemma_alert_rows_product(fi: nat, idx: nat, id: Seq<char>, a: SpecAlert)
    ensures
        alert_rows(fi, idx, id, a).len() == or_none(a.active_period).len() * (or_none(
            a.informed_entity,
        ).len() * alert_languages(a).len()),
        forall|j: int|
            0 <= j < alert_rows(fi, idx, id, a).len() ==> (#[trigger] alert_rows(fi, idx, id, a)[j]).id == id
                && alert_rows(fi, idx, id, a)[j].feed_index == idx as i32,
{
    let ps = or_none(a.active_period);
    let es = or_none(a.informed_entity);
    let nl = alert_languages(a).len();
    assert forall|i: int| 0 <= i < ps.len() implies (#[trigger] period_rows_of(fi, idx, id, a)(
        ps[i],
    )).len() == es.len() * nl by {
        let r = ps[i];
        assert forall|k: int| 0 <= k < es.len() implies (#[trigger] language_rows_of(fi, idx, id, a, r)(
            es[k],
        )).len() == nl by {}
        lemma_concat_map_len(es, language_rows_of(fi, idx, id, a, r), nl);
    }
    lemma_concat_map_len(ps, period_rows_of(fi, idx, id, a), es.len() * nl);
    let p = has_id(id, idx);
    assert forall|i: int, j: int|
        0 <= i < ps.len() && 0 <= j < period_rows_of(fi, idx, id, a)(ps[i]).len() implies #[trigger] p(
        period_rows_of(fi, idx, id, a)(ps[i])[j],
    ) by {
        let r = ps[i];
        assert forall|k: int, l: int|
            0 <= k < es.len() && 0 <= l < language_rows_of(fi, idx, id, a, r)(es[k]).len() implies #[trigger] p(
            language_rows_of(fi, idx, id, a, r)(es[k])[l],
        ) by {}
        lemma_concat_map_all_satisfy(es, language_rows_of(fi, idx, id, a, r), p);
    }
    lemma_concat_map_all_satisfy(ps, period_rows_of(fi, idx, id, a), p);
    assert forall|j: int| 0 <= j < alert_rows(fi, idx, id, a).len() implies (#[trigger] alert_rows(
        fi,
        idx,
        id,
        a,
    )[j]).id == id && alert_rows(fi, idx, id, a)[j].feed_index == idx as i32 by {
        assert(alert_rows(fi, idx, id, a) == concat_map(ps, period_rows_of(fi, idx, id, a)));
        assert(p(concat_map(ps, period_rows_of(fi, idx, id, a))[j]));
    }
}

/// Within one file, alerts are read under ids that are all different, so
/// rows of two alerts of a file never share their id.
pub proof fn lemma_alert_ids_distinct(fi: nat, es: Seq<SpecFeedEntity>)
    ensures
        alert_file(fi, es).0.no_duplicates(),
    decreases es.len(),
{
    if es.len() > 0 {
        lemma_alert_ids_distinct(fi, es.drop_last());
        let prev = alert_file(fi, es.drop_last()).0;
        let e = es.last();
        if e.alert is Some {
            lemma_next_id_fresh(prev, e.id);
            let ids = prev.push(next_id(prev, e.id));
            assert forall|a: int, b: int| 0 <= a < ids.len() && 0 <= b < ids.len() && a != b implies ids[a]
                != ids[b] by {
                if a == prev.len() {
                    assert(prev[b] == ids[b]);
                    assert(prev.contains(prev[b]));
                } else if b == prev.len() {
                    assert(prev[a] == ids[a]);
                    assert(prev.contains(prev[a]));
                } else {
                    assert(prev[a] == ids[a] && prev[b] == ids[b]);
                }
            }
        }
    }
}

/// A file hands out at most one id for each of its entities.
pub proof fn lemma_alert_file_len(fi: nat, es: Seq<SpecFeedEntity>)
    ensures
        alert_file(fi, es).0.len() <= es.len(),
    decreases es.len(),
{
    if es.len() > 0 {
        lemma_alert_file_len(fi, es.drop_last());
    }
}

/// Each row of a file carries the id its alert was read under, and that
/// alert's number in the file is the id's place among the ids handed out.
pub proof fn lemma_alert_file_rows(fi: nat, es: Seq<SpecFeedEntity>)
    requires
        es.len() <= i32::MAX,
    ensures
        forall|j: int|
            #![trigger alert_file(fi, es).1[j]]
            0 <= j < alert_file(fi, es).1.len() ==> {
                let r = alert_file(fi, es).1[j];
                &&& 0 <= r.feed_index < alert_file(fi, es).0.len()
                &&& r.id == alert_file(fi, es).0[r.feed_index as int]
            },
    decreases es.len(),
{
    if es.len() > 0 {
        let prev = alert_file(fi, es.drop_last());
        lemma_alert_file_rows(fi, es.drop_last());
        lemma_alert_file_len(fi, es.drop_last());
        let e = es.last();
        if let Some(a) = e.alert {
            let id = next_id(prev.0, e.id);
            let ids = prev.0.push(id);
            let new_rows = alert_rows(fi, prev.0.len(), id, a);
            lemma_alert_rows_product(fi, prev.0.len(), id, a);
            let rows = prev.1 + new_rows;
            assert(rows == alert_file(fi, es).1);
            assert(ids == alert_file(fi, es).0);
            assert forall|j: int| 0 <= j < rows.len() implies {
                let r = #[trigger] rows[j];
                &&& 0 <= r.feed_index < ids.len()
                &&& r.id == ids[r.feed_index as int]
            } by {
                if j < prev.1.len() {
                    assert(rows[j] == prev.1[j]);
                } else {
                    assert(rows[j] == new_rows[j - prev.1.len()]);
                }
            }
        }
    }
}

/// Within one file, two rows carry the same id exactly when they come from
/// the same alert: all rows of an alert share its id, and rows of two
/// alerts never do, even where the feed repeats an entity id.
pub proof fn lemma_alert_rows_grouped(fi: nat, es: Seq<SpecFeedEntity>)
    requires
        es.len() <= i32::MAX,
    ensures
        forall|j: int, k: int|
            0 <= j < alert_file(fi, es).1.len() && 0 <= k < alert_file(fi, es).1.len() ==> (
            (#[trigger] alert_file(fi, es).1[j]).id == (#[trigger] alert_file(fi, es).1[k]).id
                <==> alert_file(fi, es).1[j].feed_index == alert_file(fi, es).1[k].feed_index),
{
    lemma_alert_file_rows(fi, es);
    lemma_alert_ids_distinct(fi, es);
}

/// The start and end of a period, each none where the period is missing.
pub open spec fn period_bounds(p: Option<SpecTimeRange>) -> (Option<u64>, Option<u64>) {
    match p {
        Some(x) => (x.start, x.end),
        None => (None, None),
    }
}

/// Row `r` tells of informed entity `e` (all its fields missing where `e`
/// is): the agency, route, route type, direction and stop are `e`'s, and
/// the trip fields those of `e`'s trip.
pub open spec fn row_of_informed(r: SpecRAlert, e: Option<SpecEntitySelector>) -> bool {
    match e {
        None => {
            &&& r.agency_id is None
            &&& r.route_id is None
            &&& r.route_type is None
            &&& r.direction_id is None
            &&& r.stop_id is None
            &&& r.trip_trip_id is None
            &&& r.trip_route_id is None
            &&& r.trip_direction_id is None
            &&& r.trip_start_time is None
            &&& r.trip_start_date is None
            &&& r.trip_schedule_relationship is None
            &&& r.trip_modification_id is None
        },
        Some(x) => {
            &&& r.agency_id == x.agency_id
            &&& r.route_id == x.route_id
            &&& r.route_type == x.route_type
            &&& r.direction_id == x.direction_id
            &&& r.stop_id == x.stop_id
            &&& match x.trip {
                None => {
                    &&& r.trip_trip_id is None
                    &&& r.trip_route_id is None
                    &&& r.trip_direction_id is None
                    &&& r.trip_start_time is None
                    &&& r.trip_start_date is None
                    &&& r.trip_schedule_relationship is None
                    &&& r.trip_modification_id is None
                },
                Some(t) => {
                    &&& r.trip_trip_id == t.trip_id
                    &&& r.trip_route_id == t.route_id
                    &&& r.trip_direction_id == t.direction_id
                    &&& r.trip_start_time == t.start_time
                    &&& r.trip_start_date == t.start_date
                    &&& r.trip_schedule_relationship == t.schedule_relationship
                    &&& r.trip_modification_id == match t.modified_trip {
                        Some(m) => m.modifications_id,
                        None => None,
                    }
                },
            }
        },
    }
}

/// What a row keeps of its alert: the alert's cause, effect and severity,
/// each text in the row's language, and a language the alert is given in.
pub open spec fn keeps_alert(a: SpecAlert) -> spec_fn(SpecRAlert) -> bool {
    |r: SpecRAlert|
        {
            &&& r.cause == a.cause
            &&& r.effect == a.effect
            &&& r.severity_level == a.severity_level
            &&& alert_languages(a).contains(r.language)
            &&& r.header_text == text_for(r.language, a.header_text)
            &&& r.description_text == text_for(r.language, a.description_text)
            &&& r.url == text_for(r.language, a.url)
            &&& r.cause_detail == text_for(r.language, a.cause_detail)
            &&& r.effect_detail == text_for(r.language, a.effect_detail)
            &&& r.tts_header_text == text_for(r.language, a.tts_header_text)
            &&& r.tts_description_text == text_for(r.language, a.tts_description_text)
            &&& exists|i: int|
                0 <= i < or_none(a.active_period).len() && (r.start, r.end) == period_bounds(
                    #[trigger] or_none(a.active_period)[i],
                )
            &&& exists|k: int|
                0 <= k < or_none(a.informed_entity).len() && row_of_informed(
                    r,
                    #[trigger] or_none(a.informed_entity)[k],
                )
        }
}

/// Every row of an alert carries the alert's cause, effect and severity, is
/// in one of the alert's languages, gives each text of the alert in the
/// row's language (the text of a translation in that language, or none
/// where the text has no translation in it), and takes its start and end
/// from one of the alert's periods and its entity fields from one of the
/// entities it informs of (all missing where it has none).
pub proof fn lemma_alert_rows_fields(fi: nat, idx: nat, id: Seq<char>, a: SpecAlert)
    ensures
        forall|j: int|
            #![trigger alert_rows(fi, idx, id, a)[j]]
            0 <= j < alert_rows(fi, idx, id, a).len() ==> {
                let r = alert_rows(fi, idx, id, a)[j];
                &&& r.cause == a.cause
                &&& r.effect == a.effect
                &&& r.severity_level == a.severity_level
                &&& alert_languages(a).contains(r.language)
                &&& r.header_text == text_for(r.language, a.header_text)
                &&& r.description_text == text_for(r.language, a.description_text)
                &&& r.url == text_for(r.language, a.url)
                &&& r.cause_detail == text_for(r.language, a.cause_detail)
                &&& r.effect_detail == text_for(r.language, a.effect_detail)
                &&& r.tts_header_text == text_for(r.language, a.tts_header_text)
                &&& r.tts_description_text == text_for(r.language, a.tts_description_text)
                &&& exists|i: int|
                    0 <= i < or_none(a.active_period).len() && (r.start, r.end) == period_bounds(
                        #[trigger] or_none(a.active_period)[i],
                    )
                &&& exists|k: int|
                    0 <= k < or_none(a.informed_entity).len() && row_of_informed(
                        r,
                        #[trigger] or_none(a.informed_entity)[k],
                    )
            },
{
    let ps = or_none(a.active_period);
    let es = or_none(a.informed_entity);
    let ls = alert_languages(a);
    let p = keeps_alert(a);
    assert forall|i: int, j: int|
        0 <= i < ps.len() && 0 <= j < period_rows_of(fi, idx, id, a)(ps[i]).len() implies #[trigger] p(
        period_rows_of(fi, idx, id, a)(ps[i])[j],
    ) by {
        let r = ps[i];
        assert forall|k: int, l: int|
            0 <= k < es.len() && 0 <= l < language_rows_of(fi, idx, id, a, r)(es[k]).len() implies #[trigger] p(
            language_rows_of(fi, idx, id, a, r)(es[k])[l],
        ) by {
            assert(ls.contains(ls[l]));
            let row = language_rows_of(fi, idx, id, a, r)(es[k])[l];
            assert((row.start, row.end) == period_bounds(ps[i]));
            assert(row_of_informed(row, es[k]));
        }
        lemma_concat_map_all_satisfy(es, language_rows_of(fi, idx, id, a, r), p);
    }
    lemma_concat_map_all_satisfy(ps, period_rows_of(fi, idx, id, a), p);
    assert forall|j: int| 0 <= j < alert_rows(fi, idx, id, a).len() implies #[trigger] p(
        alert_rows(fi, idx, id, a)[j],
    ) by {
        assert(alert_rows(fi, idx, id, a) == concat_map(ps, period_rows_of(fi, idx, id, a)));
    }
    assert forall|j: int| 0 <= j < alert_rows(fi, idx, id, a).len() implies {
        let r = #[trigger] alert_rows(fi, idx, id, a)[j];
        &&& r.cause == a.cause
        &&& r.effect == a.effect
        &&& r.severity_level == a.severity_level
        &&& alert_languages(a).contains(r.language)
        &&& r.header_text == text_for(r.language, a.header_text)
        &&& r.description_text == text_for(r.language, a.description_text)
        &&& r.url == text_for(r.language, a.url)
        &&& r.cause_detail == text_for(r.language, a.cause_detail)
        &&& r.effect_detail == text_for(r.language, a.effect_detail)
        &&& r.tts_header_text == text_for(r.language, a.tts_header_text)
        &&& r.tts_description_text == text_for(r.language, a.tts_description_text)
        &&& exists|i: int|
            0 <= i < or_none(a.active_period).len() && (r.start, r.end) == period_bounds(
                #[trigger] or_none(a.active_period)[i],
            )
        &&& exists|k: int|
            0 <= k < or_none(a.informed_entity).len() && row_of_informed(
                r,
                #[trigger] or_none(a.informed_entity)[k],
            )
    } by {
        assert(p(alert_rows(fi, idx, id, a)[j]));
    }
}

/// Adding items keeps those there, adds each item, adds nothing else, and
/// adds no item twice.
pub proof fn lemma_add_distinct<T>(acc: Seq<T>, items: Seq<T>)
    ensures
        forall|x: T| #[trigger] add_distinct(acc, items).contains(x) <==> (acc.contains(x) || items.contains(x)),
        acc.no_duplicates() ==> add_distinct(acc, items).no_duplicates(),
        add_distinct(acc, items).len() >= acc.len(),
        add_distinct(acc, items).len() >= if items.len() > 0 { 1nat } else { 0nat },
    decreases items.len(),
{
    if items.len() > 0 {
        let init = items.drop_last();
        let y = items.last();
        lemma_add_distinct(acc, init);
        let p = add_distinct(acc, init);
        assert forall|x: T| #[trigger] add_distinct(acc, items).contains(x) <==> (acc.contains(x) || items.contains(x)) by {
            if init.contains(x) {
                let k = choose|k: int| 0 <= k < init.len() && init[k] == x;
                assert(items[k] == x);
            }
            if items.contains(x) && x != y {
                let k = choose|k: int| 0 <= k < items.len() && items[k] == x;
                assert(k != items.len() - 1);
                assert(init[k] == x);
            }
            if !p.contains(y) {
                assert(p.push(y)[p.len() as int] == y);
                if p.contains(x) {
                    let k = choose|k: int| 0 <= k < p.len() && p[k] == x;
                    assert(p.push(y)[k] == x);
                }
                if p.push(y).contains(x) {
                    let k = choose|k: int| 0 <= k < p.len() + 1 && p.push(y)[k] == x;
                    if k < p.len() {
                        assert(p[k] == x);
                    }
                }
            }
            assert(items[items.len() - 1] == y);
        }
        if !p.contains(y) && p.len() == 0 {
            assert(p.push(y).len() == 1);
        }
        if p.contains(y) {
            let k = choose|k: int| 0 <= k < p.len() && p[k] == y;
            assert(p.len() >= 1);
        }
        if acc.no_duplicates() && !p.contains(y) {
            let q = p.push(y);
            assert forall|i: int, j: int| 0 <= i < q.len() && 0 <= j < q.len() && i != j implies q[i] != q[j] by {
                if i == p.len() {
                    assert(p.contains(p[j]));
                } else if j == p.len() {
                    assert(p.contains(p[i]));
                } else {
                    assert(q[i] == p[i] && q[j] == p[j]);
                }
            }
        }
    }
}

/// The languages of all the texts of an alert, with repeats, in the order
/// the alert's languages are gathered.
pub open spec fn text_languages(a: SpecAlert) -> Seq<Option<Seq<char>>> {
    ts_languages(a.cause_detail) + ts_languages(a.effect_detail) + ts_languages(a.url) + ts_languages(
        a.header_text,
    ) + ts_languages(a.description_text) + ts_languages(a.tts_header_text) + ts_languages(
        a.tts_description_text,
    ) + ts_languages(a.image_alternative_text)
}

proof fn lemma_concat_contains<T>(a: Seq<T>, b: Seq<T>, x: T)
    ensures
        (a + b).contains(x) <==> a.contains(x) || b.contains(x),
{
    if a.contains(x) {
        let k = choose|k: int| 0 <= k < a.len() && a[k] == x;
        assert((a + b)[k] == x);
    }
    if b.contains(x) {
        let k = choose|k: int| 0 <= k < b.len() && b[k] == x;
        assert((a + b)[a.len() + k] == x);
    }
    if (a + b).contains(x) {
        let k = choose|k: int| 0 <= k < (a + b).len() && (a + b)[k] == x;
        if k < a.len() {
            assert(a[k] == x);
        } else {
            assert(b[k - a.len()] == x);
        }
    }
}

/// The languages of an alert are those its texts have translations in, each
/// once; an alert whose texts have no translation has a single missing
/// language.
pub proof fn lemma_alert_languages(a: SpecAlert)
    ensures
        alert_languages(a).no_duplicates(),
        text_languages(a).len() == 0 ==> alert_languages(a) == seq![None::<Seq<char>>],
        text_languages(a).len() > 0 ==> forall|l: Option<Seq<char>>|
            #[trigger] alert_languages(a).contains(l) <==> text_languages(a).contains(l),
{
    let t0 = ts_languages(a.cause_detail);
    let t1 = ts_languages(a.effect_detail);
    let t2 = ts_languages(a.url);
    let t3 = ts_languages(a.header_text);
    let t4 = ts_languages(a.description_text);
    let t5 = ts_languages(a.tts_header_text);
    let t6 = ts_languages(a.tts_description_text);
    let t7 = ts_languages(a.image_alternative_text);
    let l0 = add_distinct(Seq::empty(), t0);
    let l1 = add_distinct(l0, t1);
    let l2 = add_distinct(l1, t2);
    let l3 = add_distinct(l2, t3);
    let l4 = add_distinct(l3, t4);
    let l5 = add_distinct(l4, t5);
    let l6 = add_distinct(l5, t6);
    let l7 = add_distinct(l6, t7);
    assert(Seq::<Option<Seq<char>>>::empty().no_duplicates());
    lemma_add_distinct(Seq::<Option<Seq<char>>>::empty(), t0);
    lemma_add_distinct(l0, t1);
    lemma_add_distinct(l1, t2);
    lemma_add_distinct(l2, t3);
    lemma_add_distinct(l3, t4);
    lemma_add_distinct(l4, t5);
    lemma_add_distinct(l5, t6);
    lemma_add_distinct(l6, t7);
    let all = text_languages(a);
    assert forall|l: Option<Seq<char>>| #[trigger] l7.contains(l) <==> all.contains(l) by {
        lemma_concat_contains(t0, t1, l);
        lemma_concat_contains(t0 + t1, t2, l);
        lemma_concat_contains(t0 + t1 + t2, t3, l);
        lemma_concat_contains(t0 + t1 + t2 + t3, t4, l);
        lemma_concat_contains(t0 + t1 + t2 + t3 + t4, t5, l);
        lemma_concat_contains(t0 + t1 + t2 + t3 + t4 + t5, t6, l);
        lemma_concat_contains(t0 + t1 + t2 + t3 + t4 + t5 + t6, t7, l);
        assert(!Seq::<Option<Seq<char>>>::empty().contains(l));
    }
    if all.len() == 0 {
        assert(t0.len() == 0 && t1.len() == 0 && t2.len() == 0 && t3.len() == 0 && t4.len() == 0 && t5.len()
            == 0 && t6.len() == 0 && t7.len() == 0);
        assert(l7.len() == 0);
        assert(seq![None::<Seq<char>>].no_duplicates());
    } else {
        assert(all.contains(all[0]));
        assert(l7.contains(all[0]));
    }
}

} // verus!
