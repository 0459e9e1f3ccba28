//! How figures, instants and names are put into words.

use vstd::prelude::*;

use crate::binary64;
use crate::binary64::Binary64;
use crate::engine::{
    ContainerSummary, ContainerView, ImageSummary, ImageView, PortMapping, PortView,
};
use crate::lists;
use crate::lists::put;
use crate::text;
use crate::text::{
    chars_of, decimal_text, find_char, is_at_most, join, same, string_of, to_lowercase, trim,
};

verus! {

/// What some daemons report as the tag of an image that has none.
pub const UNTAGGED: &'static str = "<none>:<none>";

/// How instants are written.
pub const TIMESTAMP: &'static str = "%Y-%m-%d %H:%M:%S";

// ---------------------------------------------------------------------- sizes

/// A size and the unit it is counted in, after dividing by a thousand while
/// that leaves at least one and a larger unit exists.
pub open spec fn scaled(size: nat, unit: nat) -> (nat, nat)
    decreases 5 - unit,
{
    if size >= binary64::of_integer(1000) && unit < 5 {
        scaled(binary64::quotient(size, binary64::of_integer(1000)), unit + 1)
    } else {
        (size, unit)
    }
}

/// The name of a unit.
pub open spec fn unit_name(unit: nat) -> Seq<char> {
    if unit == 0 {
        "B"@
    } else if unit == 1 {
        "kB"@
    } else if unit == 2 {
        "MB"@
    } else if unit == 3 {
        "GB"@
    } else if unit == 4 {
        "TB"@
    } else {
        "PB"@
    }
}

/// A number of bytes in words.
pub open spec fn bytes_text(value: int) -> Seq<char> {
    if value < 0 {
        "unknown"@
    } else {
        let (size, unit) = scaled(binary64::of_integer(value as nat), 0);
        if unit == 0 {
            text::decimal(value as nat) + " B"@
        } else {
            binary64::tenths_text(size) + " "@ + unit_name(unit)
        }
    }
}

fn unit_label(unit: u8) -> (label: &'static str)
    ensures
        label@ == unit_name(unit as nat),
{
    if unit == 0 {
        "B"
    } else if unit == 1 {
        "kB"
    } else if unit == 2 {
        "MB"
    } else if unit == 3 {
        "GB"
    } else if unit == 4 {
        "TB"
    } else {
        "PB"
    }
}

/// A number of bytes in decimal units, as Docker itself prints them. A negative
/// number is the daemon saying that it does not know.
#[must_use]
pub fn bytes(value: i64) -> (text: String)
    ensures
        text@ == bytes_text(value as int),
{
    if value < 0 {
        return "unknown".to_owned();
    }
    let thousand = Binary64::from_integer(1000);
    let mut size = Binary64::from_integer(value as u64);
    let mut unit: u8 = 0;
    proof {
        assert(0nat * binary64::one() == 0) by (nonlinear_arith);
        binary64::lemma_nearest_zero(1);
        thousand.lemma_within(944, 1094, 944, 1094);
    }
    while unit < 5 && !size.less(thousand)
        invariant
            unit <= 5,
            value >= 0,
            thousand.well_formed(),
            thousand.within(944, 1094),
            thousand.value() == binary64::of_integer(1000),
            thousand.value() > 0,
            size.well_formed(),
            value > 0 ==> size.within(944 - 150 * unit, 1094 + 150 * unit),
            value == 0 ==> size.value() == 0,
            scaled(binary64::of_integer(value as nat), 0) == scaled(size.value(), unit as nat),
        decreases 5 - unit,
    {
        size = size.divide(thousand, Ghost(944 - 150 * unit), Ghost(1094 + 150 * unit));
        unit += 1;
    }
    if unit == 0 {
        decimal_text(value as u64).concat(" B")
    } else {
        size.tenths().concat(" ").concat(unit_label(unit))
    }
}

// --------------------------------------------------------------------- shares

/// A finite share of the whole in words, as a percentage with one decimal.
pub open spec fn percent_text(fraction: nat) -> Seq<char> {
    let value = binary64::times(fraction, 100);
    if value >= binary64::overflow() {
        "inf%"@
    } else if 0 < value < binary64::nearest(binary64::one(), 10) {
        "<0.1%"@
    } else {
        binary64::tenths_text(value) + "%"@
    }
}

/// A share given by the bits of a binary64 number, in words.
pub open spec fn percent_of_bits(bits: u64) -> Seq<char> {
    if binary64::bits_exponent(bits) == 2047 {
        "unknown"@
    } else if binary64::bits_negative(bits) {
        if binary64::of_bits(bits) == 0 {
            "-0.0%"@
        } else {
            "unknown"@
        }
    } else {
        percent_text(binary64::of_bits(bits))
    }
}

fn percent_value(fraction: Binary64) -> (text: String)
    requires
        fraction.well_formed(),
        fraction.value() < binary64::overflow(),
    ensures
        text@ == percent_text(fraction.value()),
{
    let value = fraction.hundredfold();
    if value.is_overflow() {
        "inf%".to_owned()
    } else if !value.is_zero() && value.less(Binary64::tenth()) {
        "<0.1%".to_owned()
    } else {
        value.tenths().concat("%")
    }
}

/// A share of the whole, given by the bits of a binary64 number, as a
/// percentage to one decimal. Anything that is not a share at all is unknown, and
/// one below a tenth of a percent is said to be small rather than shown as nothing.
#[must_use]
pub fn percent(fraction: u64) -> (text: String)
    ensures
        text@ == percent_of_bits(fraction),
{
    let exponent: u64 = (fraction / 0x10_0000_0000_0000) % 2048;
    if exponent == 2047 {
        return "unknown".to_owned();
    }
    let value = Binary64::from_bits(fraction);
    if fraction >= 0x8000_0000_0000_0000 {
        if value.is_zero() {
            "-0.0%".to_owned()
        } else {
            "unknown".to_owned()
        }
    } else {
        percent_value(value)
    }
}

/// How much of a ceiling is used, in words.
pub open spec fn share_text(used: int, ceiling: int) -> Seq<char> {
    if used < 0 {
        "unknown"@
    } else if ceiling <= 0 {
        bytes_text(used)
    } else {
        bytes_text(used) + " of "@ + bytes_text(ceiling) + " ("@ + percent_text(
            binary64::quotient(binary64::of_integer(used as nat), binary64::of_integer(ceiling as nat)),
        ) + ")"@
    }
}

/// How much of a ceiling is used. Without a ceiling there is only the figure.
#[must_use]
pub fn share(used: i64, ceiling: i64) -> (text: String)
    ensures
        text@ == share_text(used as int, ceiling as int),
{
    if used < 0 {
        return "unknown".to_owned();
    }
    if ceiling <= 0 {
        return bytes(used);
    }
    let whole = Binary64::from_integer(ceiling as u64);
    let part = Binary64::from_integer(used as u64);
    proof {
        whole.lemma_within(944, 1094, 944, 1094);
        assert(0nat * binary64::one() == 0) by (nonlinear_arith);
        binary64::lemma_nearest_zero(1);
        binary64::lemma_nearest_zero(whole.value());
    }
    let fraction = if used == 0 {
        part
    } else {
        part.divide(whole, Ghost(944), Ghost(1094))
    };
    proof {
        if used == 0 {
            Binary64::lemma_zero_is_small();
        } else {
            fraction.lemma_small(794, 1244);
        }
    }
    bytes(used).concat(" of ").concat(bytes(ceiling).as_str()).concat(" (").concat(
        percent_value(fraction).as_str(),
    ).concat(")")
}

// ------------------------------------------------------------------- instants

/// A number of seconds as a count of the unit that suits it.
pub open spec fn age_unit(seconds: int) -> (int, Seq<char>) {
    if seconds < 5400 {
        (seconds / 60, "minute"@)
    } else if seconds < 129_600 {
        (seconds / 3600, "hour"@)
    } else if seconds < 1_209_600 {
        (seconds / 86400, "day"@)
    } else if seconds < 5_184_000 {
        (seconds / 604_800, "week"@)
    } else if seconds < 62_208_000 {
        (seconds / 2_592_000, "month"@)
    } else {
        (seconds / 31_536_000, "year"@)
    }
}

/// How long ago an instant was, in words.
pub open spec fn age_text(instant: int, now: int) -> Seq<char> {
    let seconds = now - instant;
    if instant <= 0 {
        "unknown"@
    } else if seconds < 0 {
        "in the future"@
    } else if seconds < 45 {
        "just now"@
    } else {
        let (count, unit) = age_unit(seconds);
        if count <= 1 {
            "1 "@ + unit + " ago"@
        } else {
            text::decimal(count as nat) + " "@ + unit + "s ago"@
        }
    }
}

/// How long ago an instant was, both in seconds since the Unix epoch.
#[must_use]
pub fn age(instant: i64, now: i64) -> (text: String)
    ensures
        text@ == age_text(instant as int, now as int),
{
    if instant <= 0 {
        return "unknown".to_owned();
    }
    if now < instant {
        return "in the future".to_owned();
    }
    let seconds: i64 = now - instant;
    if seconds < 45 {
        return "just now".to_owned();
    }
    let (count, unit): (i64, &str) = if seconds < 5400 {
        (seconds / 60, "minute")
    } else if seconds < 129_600 {
        (seconds / 3600, "hour")
    } else if seconds < 1_209_600 {
        (seconds / 86400, "day")
    } else if seconds < 5_184_000 {
        (seconds / 604_800, "week")
    } else if seconds < 62_208_000 {
        (seconds / 2_592_000, "month")
    } else {
        (seconds / 31_536_000, "year")
    };
    if count <= 1 {
        "1 ".to_owned().concat(unit).concat(" ago")
    } else {
        decimal_text(count as u64).concat(" ").concat(unit).concat("s ago")
    }
}

/// The instants that chrono's calendar reaches: from the first second of the
/// year -262143 to the last of the year 262142.
pub open spec fn in_calendar(instant: int) -> bool {
    -8334601228800 <= instant <= 8210266876799
}

/// What chrono writes for an instant, given in seconds since the Unix epoch, in
/// a zone so many seconds east of UTC, by a pattern.
pub uninterp spec fn local_time(instant: i64, east: i32, pattern: Seq<char>) -> Seq<char>;

/// Calls `chrono::DateTime::format` on what `DateTime::from_timestamp` and
/// `FixedOffset::from_utc_datetime` give. There is no text exactly when the
/// instant is outside chrono's calendar; the text itself only has a name. The
/// pattern has to be one that chrono can read.
#[verifier::external_body]
pub(crate) fn format_local(instant: i64, east: i32, pattern: &str) -> (text: Option<String>)
    requires
        -86_400 < east < 86_400,
        pattern@ == TIMESTAMP@,
    ensures
        text is Some <==> in_calendar(instant as int),
        text matches Some(t) ==> t@ == local_time(instant, east, pattern@),
{
    let utc = chrono::DateTime::<chrono::Utc>::from_timestamp(instant, 0)?;
    let zone = chrono::FixedOffset::east_opt(east)?;
    let local = chrono::TimeZone::from_utc_datetime(&zone, &utc.naive_utc());
    Some(local.format(pattern).to_string())
}

/// An instant as it is shown, given what the calendar makes of it.
pub open spec fn timestamp_shown(local: Option<Seq<char>>) -> Seq<char> {
    match local {
        Some(text) => text,
        None => "unknown"@,
    }
}

/// What the calendar makes of an instant.
pub open spec fn calendar_text(instant: i64, east: i32) -> Option<Seq<char>> {
    if in_calendar(instant as int) {
        Some(local_time(instant, east, TIMESTAMP@))
    } else {
        None
    }
}

/// An instant as it is shown, given what the calendar makes of it.
#[must_use]
pub fn timestamp_or_unknown(local: Option<String>) -> (text: String)
    ensures
        text@ == timestamp_shown(local.deep_view()),
{
    match local {
        Some(text) => text,
        None => "unknown".to_owned(),
    }
}

/// The date and time of an instant in a zone so many seconds east of UTC.
#[must_use]
pub fn timestamp(instant: i64, east: i32) -> (text: String)
    requires
        -86_400 < east < 86_400,
    ensures
        text@ == timestamp_shown(calendar_text(instant, east)),
{
    timestamp_or_unknown(format_local(instant, east, TIMESTAMP))
}

/// An instant with its age, given what the calendar makes of it.
pub open spec fn instant_shown(local: Option<Seq<char>>, value: int, now: int) -> Seq<char> {
    if value <= 0 {
        "unknown"@
    } else {
        timestamp_shown(local) + " ("@ + age_text(value, now) + ")"@
    }
}

/// An instant with its age, given what the calendar makes of it.
#[must_use]
pub fn instant_with_age(local: Option<String>, value: i64, now: i64) -> (text: String)
    ensures
        text@ == instant_shown(local.deep_view(), value as int, now as int),
{
    if value <= 0 {
        return "unknown".to_owned();
    }
    timestamp_or_unknown(local).concat(" (").concat(age(value, now).as_str()).concat(")")
}

/// An instant with its age, in words.
pub open spec fn instant_text(value: i64, now: i64, east: i32) -> Seq<char> {
    instant_shown(calendar_text(value, east), value as int, now as int)
}

/// An instant with its age; zero is how the daemon says that it does not know.
#[must_use]
pub fn instant(value: i64, now: i64, east: i32) -> (text: String)
    requires
        -86_400 < east < 86_400,
    ensures
        text@ == instant_text(value, now, east),
{
    instant_with_age(format_local(value, east, TIMESTAMP), value, now)
}

// ---------------------------------------------------------------------- names

/// The first twelve characters of an id, without its algorithm.
pub open spec fn short_text(id: Seq<char>) -> Seq<char> {
    let bare = match text::split_once_at(id, ':') {
        Some((_, rest)) => rest,
        None => id,
    };
    if bare.len() > 12 {
        bare.take(12)
    } else {
        bare
    }
}

/// The first twelve characters of an id, without its algorithm: what the
/// `docker` command shows.
#[must_use]
pub fn short_id(id: &str) -> (short: String)
    ensures
        short@ == short_text(id@),
{
    let chars = chars_of(id);
    let at: usize = find_char(&chars, ':');
    let from: usize = if at < chars.len() {
        at + 1
    } else {
        0
    };
    let to: usize = if chars.len() - from > 12 {
        from + 12
    } else {
        chars.len()
    };
    let short = string_of(&chars, from, to);
    assert(short@ =~= short_text(id@));
    short
}

/// A port in words.
pub open spec fn port_text(mapping: PortView) -> Seq<char> {
    let private = text::decimal(mapping.private_port as nat) + "/"@ + mapping.protocol;
    match (mapping.public_port, mapping.ip) {
        (Some(public), Some(ip)) => ip + ":"@ + text::decimal(public as nat) + " \u{2192} "@ + private,
        (Some(public), None) => text::decimal(public as nat) + " \u{2192} "@ + private,
        (None, _) => private,
    }
}

/// A port: where it is published, if it is, and what it leads to.
#[must_use]
pub fn port(mapping: &PortMapping) -> (text: String)
    ensures
        text@ == port_text(mapping.deep_view()),
{
    let private = decimal_text(mapping.private_port as u64).concat("/").concat(
        mapping.protocol.as_str(),
    );
    match (mapping.public_port, &mapping.ip) {
        (Some(public), Some(ip)) => ip.clone().concat(":").concat(
            decimal_text(public as u64).as_str(),
        ).concat(" \u{2192} ").concat(private.as_str()),
        (Some(public), None) => decimal_text(public as u64).concat(" \u{2192} ").concat(
            private.as_str(),
        ),
        (None, _) => private,
    }
}

/// Whether a tag names anything.
pub open spec fn usable_tag(tag: Seq<char>) -> bool {
    tag.len() > 0 && tag != UNTAGGED@
}

/// Where the usable tag stands whose lowered form comes first; of several with the same
/// lowered form, the one that is listed first.
pub open spec fn least_tag(tags: Seq<Seq<char>>, lowered: Seq<Seq<char>>) -> Option<int>
    decreases tags.len(),
{
    if tags.len() == 0 {
        None
    } else {
        let at = tags.len() - 1;
        match least_tag(tags.drop_last(), lowered) {
            None => if usable_tag(tags[at]) {
                Some(at)
            } else {
                None
            },
            Some(best) => if usable_tag(tags[at]) && !text::at_most(lowered[best], lowered[at]) {
                Some(at)
            } else {
                Some(best)
            },
        }
    }
}

/// Some texts in lower case.
pub open spec fn lowered_texts(texts: Seq<Seq<char>>) -> Seq<Seq<char>> {
    texts.map_values(|t: Seq<char>| text::lowercase(t))
}

/// The tag that comes first when case is ignored; of several that differ only
/// in case, the one that is listed first.
pub open spec fn best_tag(tags: Seq<Seq<char>>) -> Option<Seq<char>> {
    match least_tag(tags, lowered_texts(tags)) {
        Some(at) => Some(tags[at]),
        None => None,
    }
}

proof fn lemma_least_tag(tags: Seq<Seq<char>>, lowered: Seq<Seq<char>>)
    ensures
        match least_tag(tags, lowered) {
            Some(best) => {
                &&& 0 <= best < tags.len()
                &&& usable_tag(tags[best])
                &&& forall|i: int|
                    0 <= i < tags.len() && usable_tag(#[trigger] tags[i]) ==> text::at_most(
                        lowered[best],
                        lowered[i],
                    )
                &&& forall|i: int|
                    0 <= i < best && usable_tag(#[trigger] tags[i]) ==> lowered[i] != lowered[best]
            },
            None => forall|i: int| 0 <= i < tags.len() ==> !usable_tag(#[trigger] tags[i]),
        },
    decreases tags.len(),
{
    if tags.len() > 0 {
        let front = tags.drop_last();
        lemma_least_tag(front, lowered);
        let last = tags.len() - 1;
        text::lemma_at_most_total(lowered[last], lowered[last]);
        match least_tag(front, lowered) {
            Some(best) => {
                assert(tags[best] == front[best]);
                text::lemma_at_most_total(lowered[best], lowered[last]);
                let now = least_tag(tags, lowered)->0;
                assert forall|i: int|
                    0 <= i < tags.len() && usable_tag(#[trigger] tags[i]) implies text::at_most(
                    lowered[now],
                    lowered[i],
                ) by {
                    if i < front.len() {
                        assert(front[i] == tags[i]);
                        if now == last {
                            text::lemma_at_most_transitive(
                                lowered[last],
                                lowered[best],
                                lowered[i],
                            );
                        }
                    }
                }
                assert forall|i: int|
                    0 <= i < now && usable_tag(#[trigger] tags[i]) implies lowered[i]
                    != lowered[now] by {
                    assert(front[i] == tags[i]);
                }
            },
            None => {
                assert forall|i: int| 0 <= i < last implies !usable_tag(#[trigger] tags[i]) by {
                    assert(front[i] == tags[i]);
                }
            },
        }
    }
}

/// The best tag is one of the usable ones and none comes before it, not even one that
/// is its equal without regard to case and is listed earlier; there is none exactly when
/// no tag is usable.
pub proof fn law_best_tag_is_least(tags: Seq<Seq<char>>)
    ensures
        match best_tag(tags) {
            Some(best) => {
                &&& tags.contains(best)
                &&& usable_tag(best)
                &&& forall|i: int|
                    0 <= i < tags.len() && usable_tag(#[trigger] tags[i]) ==> text::at_most(
                        text::lowercase(best),
                        text::lowercase(tags[i]),
                    )
                &&& exists|at: int|
                    0 <= at < tags.len() && #[trigger] tags[at] == best && forall|i: int|
                        0 <= i < at && usable_tag(#[trigger] tags[i]) ==> text::lowercase(tags[i])
                            != text::lowercase(best)
            },
            None => forall|i: int| 0 <= i < tags.len() ==> !usable_tag(#[trigger] tags[i]),
        },
{
    let lowered = lowered_texts(tags);
    lemma_least_tag(tags, lowered);
    if let Some(at) = least_tag(tags, lowered) {
        assert forall|i: int| 0 <= i < tags.len() && usable_tag(#[trigger] tags[i]) implies
            text::at_most(text::lowercase(tags[at]), text::lowercase(tags[i])) by {
            assert(lowered[at] == text::lowercase(tags[at]));
            assert(lowered[i] == text::lowercase(tags[i]));
        }
        assert forall|i: int| 0 <= i < at && usable_tag(#[trigger] tags[i]) implies
            text::lowercase(tags[i]) != text::lowercase(tags[at]) by {
            assert(lowered[i] == text::lowercase(tags[i]));
        }
        assert(tags[at] == best_tag(tags)->0);
    }
}

fn is_usable_tag(tag: &str) -> (yes: bool)
    ensures
        yes == usable_tag(tag@),
{
    !tag.is_empty() && !same(tag, UNTAGGED)
}

/// Where the usable tag stands whose lowered form comes first.
#[must_use]
pub fn least_tag_at(tags: &Vec<String>, lowered: &Vec<String>) -> (at: Option<usize>)
    requires
        lowered@.len() == tags@.len(),
    ensures
        match at {
            Some(at) => at < tags@.len() && least_tag(tags.deep_view(), lowered.deep_view())
                == Some(at as int),
            None => least_tag(tags.deep_view(), lowered.deep_view()) is None,
        },
{
    let ghost all = tags.deep_view();
    let ghost low = lowered.deep_view();
    let mut best: Option<usize> = None;
    let mut i: usize = 0;
    assert(all.take(0) =~= Seq::<Seq<char>>::empty());
    while i < tags.len()
        invariant
            i <= tags@.len(),
            lowered@.len() == tags@.len(),
            all == tags.deep_view(),
            low == lowered.deep_view(),
            match best {
                Some(at) => at < i && least_tag(all.take(i as int), low) == Some(at as int),
                None => least_tag(all.take(i as int), low) is None,
            },
        decreases tags@.len() - i,
    {
        proof {
            assert(all.take(i + 1).drop_last() =~= all.take(i as int));
            assert(all.take(i + 1)[i as int] == tags@[i as int]@);
        }
        if is_usable_tag(tags[i].as_str()) {
            match best {
                None => {
                    best = Some(i);
                },
                Some(at) => {
                    if !is_at_most(lowered[at].as_str(), lowered[i].as_str()) {
                        best = Some(i);
                    }
                },
            }
        }
        i += 1;
    }
    assert(all.take(i as int) =~= all);
    best
}

/// The tag an image is known by: the first when case is ignored, so that it
/// does not depend on the order in which the daemon lists them.
#[must_use]
pub fn primary_tag(image: &ImageSummary) -> (tag: Option<String>)
    ensures
        tag.deep_view() == best_tag(image.deep_view().repo_tags),
{
    let ghost low = lowered_texts(image.repo_tags.deep_view());
    let mut lowered: Vec<String> = Vec::new();
    let mut i: usize = 0;
    assert(lowered.deep_view() =~= low.take(0));
    while i < image.repo_tags.len()
        invariant
            i <= image.repo_tags@.len(),
            low == lowered_texts(image.repo_tags.deep_view()),
            lowered@.len() == i,
            lowered.deep_view() == low.take(i as int),
        decreases image.repo_tags@.len() - i,
    {
        put(&mut lowered, to_lowercase(image.repo_tags[i].as_str()));
        i += 1;
        assert(lowered.deep_view() =~= low.take(i as int));
    }
    assert(lowered.deep_view() =~= low);
    match least_tag_at(&image.repo_tags, &lowered) {
        Some(at) => Some(image.repo_tags[at].clone()),
        None => None,
    }
}

/// What an image is called.
pub open spec fn image_label_text(image: ImageView) -> Seq<char> {
    match best_tag(image.repo_tags) {
        Some(tag) => tag,
        None => short_text(image.id),
    }
}

/// What an image is called: its tag, or its short id when it has none.
#[must_use]
pub fn image_label(image: &ImageSummary) -> (label: String)
    ensures
        label@ == image_label_text(image.deep_view()),
{
    match primary_tag(image) {
        Some(tag) => tag,
        None => short_id(image.id.as_str()),
    }
}

/// Whether no tag names an image.
pub open spec fn untagged(image: ImageView) -> bool {
    best_tag(image.repo_tags) is None
}

/// Whether no tag names an image.
#[must_use]
pub fn is_untagged(image: &ImageSummary) -> (yes: bool)
    ensures
        yes == untagged(image.deep_view()),
{
    primary_tag(image).is_none()
}

/// What a container is called.
pub open spec fn container_label_text(container: ContainerView) -> Seq<char> {
    match lists::first_where(container.names, |name: Seq<char>| name.len() > 0) {
        Some(name) => name,
        None => short_text(container.id),
    }
}

/// What a container is called: its first name, or its short id when it has
/// none.
#[must_use]
pub fn container_label(container: &ContainerSummary) -> (label: String)
    ensures
        label@ == container_label_text(container.deep_view()),
{
    let ghost names = container.names.deep_view();
    let ghost p = |name: Seq<char>| name.len() > 0;
    let mut i: usize = 0;
    while i < container.names.len()
        invariant
            i <= container.names@.len(),
            names == container.names.deep_view(),
            p == (|name: Seq<char>| name.len() > 0),
            forall|k: int| 0 <= k < i ==> !p(#[trigger] names[k]),
        decreases container.names@.len() - i,
    {
        if !container.names[i].as_str().is_empty() {
            proof {
                assert(p(names[i as int]));
                lists::lemma_first_where(names, p, i as int);
            }
            return container.names[i].clone();
        }
        i += 1;
    }
    proof {
        lists::lemma_first_where(names, p, i as int);
    }
    short_id(container.id.as_str())
}

/// Some texts in one line.
pub open spec fn list_text(values: Seq<Seq<char>>) -> Seq<char> {
    if values.len() == 0 {
        "none"@
    } else {
        text::joined(values, ", "@)
    }
}

/// Some texts in one line, and a word for when there is none.
#[must_use]
pub fn list_or_none(values: &[String]) -> (text: String)
    ensures
        text@ == list_text(values.deep_view()),
{
    if values.len() == 0 {
        "none".to_owned()
    } else {
        join(values, ", ")
    }
}

/// A text, or a word for one that is blank.
pub open spec fn known_text(value: Seq<char>) -> Seq<char> {
    if text::trimmed(value).len() == 0 {
        "unknown"@
    } else {
        value
    }
}

/// A text, and a word for one that is blank.
#[must_use]
pub fn text_or_unknown(value: &str) -> (text: String)
    ensures
        text@ == known_text(value@),
{
    if trim(value).is_empty() {
        "unknown".to_owned()
    } else {
        value.to_owned()
    }
}

proof fn lemma_decimal_has_no_leading_zero(n: nat)
    requires
        n > 0,
    ensures
        text::decimal(n).len() > 0,
        text::decimal(n)[0] != '0',
    decreases n,
{
    if n >= 10 {
        lemma_decimal_has_no_leading_zero(n / 10);
    }
}

/// However long ago an instant was, its age never counts zero of anything.
pub proof fn law_ages_never_count_zero(instant: int, now: int)
    ensures
        age_text(instant, now).len() > 0,
        age_text(instant, now)[0] != '0',
{
    reveal_strlit("unknown");
    reveal_strlit("in the future");
    reveal_strlit("just now");
    reveal_strlit("1 ");
    let (count, unit) = age_unit(now - instant);
    if count > 1 {
        lemma_decimal_has_no_leading_zero(count as nat);
    }
}

/// The short form of an id is the beginning of what follows its algorithm, at most twelve
/// characters of it.
pub proof fn law_short_ids_are_the_beginning_of_the_id(algorithm: Seq<char>, id: Seq<char>)
    requires
        !algorithm.contains(':'),
        !id.contains(':'),
    ensures
        short_text(algorithm + seq![':'] + id) == short_text(id),
        id.len() <= 12 ==> short_text(id) == id,
        id.len() > 12 ==> short_text(id).len() == 12 && short_text(id).is_prefix_of(id),
{
    let whole = algorithm + seq![':'] + id;
    assert(whole[algorithm.len() as int] == ':');
    assert forall|i: int| 0 <= i < algorithm.len() implies whole[i] != ':' by {
        assert(algorithm.contains(algorithm[i]));
    }
    assert forall|i: int| 0 <= i < id.len() implies id[i] != ':' by {
        assert(id.contains(id[i]));
    }
    text::lemma_find_is(whole, ':', algorithm.len() as int);
    text::lemma_find_is(id, ':', id.len() as int);
    assert(whole.skip(algorithm.len() as int + 1) =~= id);
    if id.len() > 12 {
        assert(id.take(12) =~= id.subrange(0, 12));
    }
}

/// A port leads from where it is published to where it goes inside the container; one that
/// is not published only has the latter.
pub proof fn law_ports_lead_from_outside_to_inside(mapping: PortView)
    ensures
        ({
            let inside = text::decimal(mapping.private_port as nat) + "/"@ + mapping.protocol;
            let said = port_text(mapping);
            &&& inside.is_suffix_of(said)
            &&& mapping.public_port is None ==> said == inside
            &&& mapping.public_port matches Some(public) ==> (mapping.ip matches Some(ip) ==> (ip
                + ":"@ + text::decimal(public as nat) + " \u{2192} "@) + inside == said)
            &&& mapping.public_port matches Some(public) ==> (mapping.ip is None
                ==> text::decimal(public as nat) + " \u{2192} "@ + inside == said)
        }),
{
    let inside = text::decimal(mapping.private_port as nat) + "/"@ + mapping.protocol;
    let said = port_text(mapping);
    assert(said.subrange(said.len() - inside.len(), said.len() as int) =~= inside);
}

/// A container is called by the first of its names that is one, and by its short id when it
/// has none.
pub proof fn law_containers_are_called_by_their_first_name(container: ContainerView, at: int)
    ensures
        0 <= at < container.names.len() && container.names[at].len() > 0 && (forall|i: int|
            0 <= i < at ==> (#[trigger] container.names[i]).len() == 0) ==> container_label_text(
            container,
        ) == container.names[at],
        (forall|i: int|
            0 <= i < container.names.len() ==> (#[trigger] container.names[i]).len() == 0)
            ==> container_label_text(container) == short_text(container.id),
{
    let p = |name: Seq<char>| name.len() > 0;
    if 0 <= at < container.names.len() && container.names[at].len() > 0 && (forall|i: int|
        0 <= i < at ==> (#[trigger] container.names[i]).len() == 0) {
        lists::lemma_first_where(container.names, p, at);
    }
    if forall|i: int| 0 <= i < container.names.len() ==> (#[trigger] container.names[i]).len() == 0 {
        lists::lemma_first_where(container.names, p, container.names.len() as int);
    }
}

/// An image is called by its tag; one whose tags are all blank or say that there is none is
/// called by its short id.
pub proof fn law_images_are_called_by_their_tag(image: ImageView, tag: Seq<char>)
    ensures
        image.repo_tags == seq![tag] && tag.len() > 0 && tag != "<none>:<none>"@
            ==> image_label_text(image) == tag && !untagged(image),
        (forall|i: int|
            0 <= i < image.repo_tags.len() ==> (#[trigger] image.repo_tags[i]).len() == 0
                || image.repo_tags[i] == "<none>:<none>"@) ==> image_label_text(image) == short_text(
            image.id,
        ) && untagged(image),
        !untagged(image) ==> image.repo_tags.contains(image_label_text(image)),
        untagged(image) <==> forall|i: int|
            0 <= i < image.repo_tags.len() ==> (#[trigger] image.repo_tags[i]).len() == 0
                || image.repo_tags[i] == "<none>:<none>"@,
{
    let lowered = lowered_texts(image.repo_tags);
    lemma_least_tag(image.repo_tags, lowered);
    if let Some(best) = least_tag(image.repo_tags, lowered) {
        assert(image.repo_tags.contains(image.repo_tags[best]));
        assert(usable_tag(image.repo_tags[best]));
    }
    if image.repo_tags == seq![tag] && tag.len() > 0 && tag != "<none>:<none>"@ {
        assert(usable_tag(image.repo_tags[0]));
    }
}

/// An age counts whole units: so many minutes up to an hour and a half, hours up to a day and
/// a half, days up to two weeks, weeks up to sixty days, thirty days to a month up to two
/// years of them, and years from there.
pub proof fn law_ages_count_whole_units(instant: int, now: int, count: nat)
    requires
        instant > 0,
        count >= 2,
    ensures
        60 * count <= now - instant < 60 * (count + 1) && now - instant < 5400 ==> age_text(
            instant,
            now,
        ) == text::decimal(count) + " "@ + "minute"@ + "s ago"@,
        3600 * count <= now - instant < 3600 * (count + 1) && 5400 <= now - instant < 129_600
            ==> age_text(instant, now) == text::decimal(count) + " "@ + "hour"@ + "s ago"@,
        86_400 * count <= now - instant < 86_400 * (count + 1) && 129_600 <= now - instant
            < 1_209_600 ==> age_text(instant, now) == text::decimal(count) + " "@ + "day"@
            + "s ago"@,
        604_800 * count <= now - instant < 604_800 * (count + 1) && 1_209_600 <= now - instant
            < 5_184_000 ==> age_text(instant, now) == text::decimal(count) + " "@ + "week"@
            + "s ago"@,
        2_592_000 * count <= now - instant < 2_592_000 * (count + 1) && 5_184_000 <= now - instant
            < 62_208_000 ==> age_text(instant, now) == text::decimal(count) + " "@ + "month"@
            + "s ago"@,
        31_536_000 * count <= now - instant < 31_536_000 * (count + 1) && 62_208_000 <= now
            - instant ==> age_text(instant, now) == text::decimal(count) + " "@ + "year"@
            + "s ago"@,
{
}

/// What is less than two of a unit is one of it, what is less than forty-five seconds is now,
/// and an instant that has not come yet says so; one that is not known says that.
pub proof fn law_short_ages_are_told_in_words(instant: int, now: int)
    ensures
        instant <= 0 ==> age_text(instant, now) == "unknown"@,
        instant > 0 && now < instant ==> age_text(instant, now) == "in the future"@,
        instant > 0 && 0 <= now - instant < 45 ==> age_text(instant, now) == "just now"@,
        instant > 0 && 45 <= now - instant < 120 ==> age_text(instant, now) == "1 "@ + "minute"@
            + " ago"@,
        instant > 0 && 5400 <= now - instant < 7200 ==> age_text(instant, now) == "1 "@ + "hour"@
            + " ago"@,
        instant > 0 && 129_600 <= now - instant < 172_800 ==> age_text(instant, now) == "1 "@
            + "day"@ + " ago"@,
        instant > 0 && 62_208_000 <= now - instant < 63_072_000 ==> age_text(instant, now) == "1 "@
            + "year"@ + " ago"@,
{
}

/// Some texts in one line are the texts with commas between them, and "none" without any.
pub proof fn law_lists_are_told_one_by_one(values: Seq<Seq<char>>, next: Seq<char>)
    ensures
        list_text(Seq::empty()) == "none"@,
        list_text(seq![next]) == next,
        values.len() > 0 ==> list_text(values.push(next)) == list_text(values) + ", "@ + next,
{
    text::law_texts_are_joined_one_by_one(values, next, ", "@);
}

/// A text that holds anything but white space is shown as it is; any other is unknown.
pub proof fn law_what_is_known_is_shown_as_it_is(value: Seq<char>, at: int)
    ensures
        0 <= at < value.len() && !text::is_space(value[at]) ==> known_text(value) == value,
        (forall|i: int| 0 <= i < value.len() ==> text::is_space(#[trigger] value[i]))
            ==> known_text(value) == "unknown"@,
{
    if 0 <= at < value.len() && !text::is_space(value[at]) {
        lemma_start_stays(value, at);
    }
    if forall|i: int| 0 <= i < value.len() ==> text::is_space(#[trigger] value[i]) {
        lemma_start_goes(value);
    }
}

proof fn lemma_start_stays(value: Seq<char>, at: int)
    requires
        0 <= at < value.len(),
        !text::is_space(value[at]),
    ensures
        text::trimmed(value).len() > 0,
    decreases value.len(),
{
    if text::is_space(value[0]) {
        lemma_start_stays(value.skip(1), at - 1);
    } else {
        lemma_end_stays(value);
    }
}

proof fn lemma_end_stays(value: Seq<char>)
    requires
        value.len() > 0,
        !text::is_space(value[0]),
    ensures
        text::trimmed_end(value).len() > 0,
    decreases value.len(),
{
    if text::is_space(value.last()) {
        lemma_end_stays(value.drop_last());
    }
}

proof fn lemma_start_goes(value: Seq<char>)
    requires
        forall|i: int| 0 <= i < value.len() ==> text::is_space(#[trigger] value[i]),
    ensures
        text::trimmed(value).len() == 0,
    decreases value.len(),
{
    if value.len() > 0 {
        let rest = value.skip(1);
        assert forall|i: int| 0 <= i < rest.len() implies text::is_space(#[trigger] rest[i]) by {
            assert(rest[i] == value[i + 1]);
        }
        lemma_start_goes(rest);
    }
}

/// An instant is told as the calendar has it, with its age beside it; one outside the
/// calendar and one that is not known say so.
pub proof fn law_instants_are_told_with_their_age(local: Seq<char>, value: int, now: int)
    ensures
        value > 0 ==> instant_shown(Some(local), value, now) == local + " ("@ + age_text(value, now)
            + ")"@,
        value > 0 ==> instant_shown(None, value, now) == "unknown"@ + " ("@ + age_text(value, now)
            + ")"@,
        value <= 0 ==> instant_shown(Some(local), value, now) == "unknown"@,
        timestamp_shown(Some(local)) == local,
        timestamp_shown(None) == "unknown"@,
{
}

/// A share tells what is used, what there is and the part in percent; without a ceiling there
/// is only the figure.
pub proof fn law_shares_tell_both_figures(used: int, ceiling: int)
    ensures
        used < 0 ==> share_text(used, ceiling) == "unknown"@,
        used >= 0 && ceiling <= 0 ==> share_text(used, ceiling) == bytes_text(used),
        used >= 0 && ceiling > 0 ==> (bytes_text(used) + " of "@ + bytes_text(ceiling)
            + " ("@).is_prefix_of(share_text(used, ceiling)),
{
    if used >= 0 && ceiling > 0 {
        let front = bytes_text(used) + " of "@ + bytes_text(ceiling) + " ("@;
        assert(share_text(used, ceiling).subrange(0, front.len() as int) =~= front);
    }
}

/// A thousand to some power.
pub open spec fn thousands(unit: nat) -> nat
    decreases unit,
{
    if unit == 0 {
        1
    } else {
        1000 * thousands((unit - 1) as nat)
    }
}

/// Whether so many of a unit are a number of bytes, but for what rounding has taken or added.
spec fn is_near(size: nat, unit: nat, bytes: nat) -> bool {
    let off = size * thousands(unit) - bytes;
    -((2 * unit + 1) * bytes) <= 0x20_0000_0000_0000 * off <= (2 * unit + 1) * bytes
}

proof fn lemma_one_is_large()
    ensures
        binary64::one() >= 0x20_0000_0000_0000,
{
    vstd::arithmetic::power2::lemma2_to64();
    vstd::arithmetic::power2::lemma2_to64_rest();
    vstd::arithmetic::power2::lemma_pow2_strictly_increases(53, 1074);
}

proof fn lemma_divided(size: nat)
    requires
        size >= 1000 * binary64::one(),
    ensures
        ({
            let less = binary64::quotient(size, binary64::of_integer(1000));
            -(size as int) <= 0x20_0000_0000_0000 * (1000 * less - size) <= size
        }),
{
    let one = binary64::one();
    let less = binary64::quotient(size, binary64::of_integer(1000));
    lemma_one_is_large();
    binary64::law_small_integers_are_exact(1000);
    binary64::law_rounding_is_near(size * one, 1000 * one);
    let delta = 1000 * less - size;
    let off = less * (1000 * one) - size * one;
    assert(off == one * delta) by (nonlinear_arith)
        requires
            off == less * (1000 * one) - size * one,
            delta == 1000 * less - size,
    ;
    let p: int = 0x20_0000_0000_0000;
    if -(1000 * one) <= 2 * off <= 1000 * one {
        assert(-500 <= delta <= 500) by (nonlinear_arith)
            requires
                -(1000 * one) <= 2 * off <= 1000 * one,
                off == one * delta,
                one > 0,
        ;
    } else {
        assert(-(size as int) <= p * delta <= size) by (nonlinear_arith)
            requires
                -(size * one) <= p * off <= size * one,
                off == one * delta,
                one > 0,
        ;
    }
}

proof fn lemma_stays_near(size: nat, less: nat, unit: nat, bytes: nat)
    requires
        unit < 5,
        is_near(size, unit, bytes),
        -(size as int) <= 0x20_0000_0000_0000 * (1000 * less - size) <= size,
    ensures
        is_near(less, unit + 1, bytes),
{
    let t = thousands(unit);
    let delta = 1000 * less - size;
    let before = size * t - bytes;
    let after = less * thousands(unit + 1) - bytes;
    let p: int = 0x20_0000_0000_0000;
    assert(thousands(unit + 1) == 1000 * t);
    assert(after == before + delta * t) by (nonlinear_arith)
        requires
            after == less * (1000 * t) - bytes,
            before == size * t - bytes,
            delta == 1000 * less - size,
    ;
    assert(-(size * t) <= p * (delta * t) <= size * t) by (nonlinear_arith)
        requires
            -(size as int) <= p * delta <= size,
            t >= 0,
    ;
    let slack = (2 * unit + 1) * bytes;
    assert(slack <= 11 * bytes) by (nonlinear_arith)
        requires
            slack == (2 * unit + 1) * bytes,
            unit < 5,
    ;
    assert(size * t <= 2 * bytes);
    let more = (2 * (unit + 1) + 1) * bytes;
    assert(more == slack + 2 * bytes) by (nonlinear_arith)
        requires
            slack == (2 * unit + 1) * bytes,
            more == (2 * (unit + 1) + 1) * bytes,
    ;
}

proof fn lemma_scaled(size: nat, unit: nat, bytes: nat)
    requires
        unit <= 5,
        is_near(size, unit, bytes),
        unit > 0 ==> 0x20_0000_0000_0000 * size + binary64::one() >= 0x20_0000_0000_0000
            * binary64::one(),
    ensures
        ({
            let (left, found) = scaled(size, unit);
            &&& unit <= found <= 5
            &&& is_near(left, found, bytes)
            &&& found > 0 ==> 0x20_0000_0000_0000 * left + binary64::one() >= 0x20_0000_0000_0000
                * binary64::one()
            &&& found < 5 ==> left < 1000 * binary64::one()
            &&& size >= 1000 * binary64::one() && unit < 5 ==> found > unit
        }),
    decreases 5 - unit,
{
    binary64::law_small_integers_are_exact(1000);
    if size >= 1000 * binary64::one() && unit < 5 {
        let less = binary64::quotient(size, binary64::of_integer(1000));
        lemma_divided(size);
        lemma_stays_near(size, less, unit, bytes);
        lemma_scaled(less, unit + 1, bytes);
    }
}

proof fn lemma_shown_is_near(left: nat, unit: nat, value: nat, tenths: nat)
    requires
        unit <= 5,
        unit < 5 ==> left < 1000 * binary64::one(),
        value <= i64::MAX,
        is_near(left, unit, value * binary64::one()),
        2 * (tenths * binary64::one()) <= 20 * left + binary64::one(),
        20 * left <= 2 * (tenths * binary64::one()) + binary64::one(),
    ensures
        -thousands(unit) <= tenths * thousands(unit) - 10 * value <= thousands(unit),
{
    let one = binary64::one();
    let t = thousands(unit);
    let bytes = value * one;
    let p: int = 0x20_0000_0000_0000;
    lemma_one_is_large();
    reveal_with_fuel(thousands, 6);
    let off = left * t - bytes;
    let slack = (2 * unit + 1) * bytes;
    assert(slack <= 11 * bytes) by (nonlinear_arith)
        requires
            slack == (2 * unit + 1) * bytes,
            unit <= 5,
    ;
    assert(220 * value <= p * t) by {
        if unit < 5 {
            assert(left * t <= 1000 * one * t) by (nonlinear_arith)
                requires
                    left < 1000 * one,
                    t >= 0,
            ;
            assert(bytes <= 2 * (1000 * one * t));
            assert(value <= 2000 * t) by (nonlinear_arith)
                requires
                    value * one <= 2 * (1000 * one * t),
                    one > 0,
            ;
        }
    }
    assert(20 * 11 * bytes <= p * (t * one)) by (nonlinear_arith)
        requires
            220 * value <= p * t,
            bytes == value * one,
            one > 0,
    ;
    assert(20 * off <= t * one && -(t * one) <= 20 * off) by (nonlinear_arith)
        requires
            p == 0x20_0000_0000_0000,
            p * off <= 11 * bytes,
            -(11 * bytes) <= p * off,
            20 * 11 * bytes <= p * (t * one),
    ;
    let x = tenths * t - 10 * value;
    assert(2 * (tenths * one) * t <= 20 * left * t + one * t) by (nonlinear_arith)
        requires
            2 * (tenths * one) <= 20 * left + one,
            t >= 0,
    ;
    assert(20 * left * t <= 2 * (tenths * one) * t + one * t) by (nonlinear_arith)
        requires
            20 * left <= 2 * (tenths * one) + one,
            t >= 0,
    ;
    assert(2 * (tenths * one) * t == 2 * one * (tenths * t)) by (nonlinear_arith);
    assert(20 * left * t == 20 * (left * t)) by (nonlinear_arith);
    assert(20 * bytes == 2 * one * (10 * value)) by (nonlinear_arith)
        requires
            bytes == value * one,
    ;
    assert(2 * one * x == 2 * one * (tenths * t) - 2 * one * (10 * value)) by (nonlinear_arith)
        requires
            x == tenths * t - 10 * value,
    ;
    assert(one * t == t * one) by (nonlinear_arith);
    assert(-t <= x <= t) by (nonlinear_arith)
        requires
            2 * one * x <= 2 * (t * one),
            -(2 * (t * one)) <= 2 * one * x,
            one > 0,
    ;
}

/// Below a thousand bytes are counted one by one. From there on a size is told with one
/// decimal in the largest unit of which there is at least one, as far as there are units, and
/// is off by no more than that decimal.
pub proof fn law_sizes_are_told_in_the_largest_unit(value: nat) -> (told: (nat, nat))
    requires
        value <= i64::MAX,
    ensures
        value < 1000 ==> bytes_text(value as int) == text::decimal(value) + " B"@,
        value >= 1000 ==> ({
            let (tenths, unit) = told;
            &&& bytes_text(value as int) == text::decimal(tenths / 10) + "."@ + seq![
                text::digit(tenths % 10),
            ] + " "@ + unit_name(unit)
            &&& 1 <= unit <= 5
            &&& -thousands(unit) <= tenths * thousands(unit) - 10 * value <= thousands(unit)
            &&& tenths >= 10
            &&& unit < 5 ==> tenths <= 10_000
        }),
        unit_name(1) == "kB"@,
        unit_name(2) == "MB"@,
        unit_name(3) == "GB"@,
        unit_name(4) == "TB"@,
        unit_name(5) == "PB"@,
{
    let one = binary64::one();
    let size = binary64::of_integer(value);
    let p: int = 0x20_0000_0000_0000;
    lemma_one_is_large();
    binary64::law_small_integers_are_exact(1000);
    let bytes = value * one;
    if value < 1000 {
        binary64::law_small_integers_are_exact(value);
        assert(value * one < 1000 * one) by (nonlinear_arith)
            requires
                value < 1000,
                one > 0,
        ;
        (0, 0)
    } else {
        assert(bytes >= 1000 * one) by (nonlinear_arith)
            requires
                bytes == value * one,
                value >= 1000,
                one > 0,
        ;
        binary64::law_rounding_is_near(bytes, 1);
        assert(thousands(0) == 1);
        assert(size * 1 == size);
        assert((2 * 0 + 1) * bytes == bytes) by (nonlinear_arith);
        assert(is_near(size, 0, bytes));
        lemma_size_of_thousands(value);
        lemma_scaled(size, 0, bytes);
        let (left, unit) = scaled(size, 0);
        binary64::law_one_decimal_is_near(left);
        let tenths = binary64::half_even(left * 10, one);
        lemma_shown_is_near(left, unit, value, tenths);
        assert(tenths >= 10) by (nonlinear_arith)
            requires
                20 * left <= 2 * (tenths * one) + one,
                0x20_0000_0000_0000 * left + one >= 0x20_0000_0000_0000 * one,
                one > 0,
        ;
        if unit < 5 {
            assert(tenths <= 10_000) by (nonlinear_arith)
                requires
                    2 * (tenths * one) <= 20 * left + one,
                    left < 1000 * one,
                    one > 0,
            ;
        }
        (tenths, unit)
    }
}

proof fn lemma_size_of_thousands(value: nat)
    requires
        value >= 1000,
    ensures
        binary64::of_integer(value) >= 1000 * binary64::one(),
{
    let one = binary64::one();
    lemma_one_is_large();
    if value < 0x20_0000_0000_0000 {
        binary64::law_small_integers_are_exact(value);
        assert(value * one >= 1000 * one) by (nonlinear_arith)
            requires
                value >= 1000,
                one > 0,
        ;
    } else {
        let bytes = value * one;
        binary64::law_rounding_is_near(bytes, 1);
        assert(bytes >= 2000 * one) by (nonlinear_arith)
            requires
                bytes == value * one,
                value >= 2000,
                one > 0,
        ;
        assert(binary64::of_integer(value) * 1 == binary64::of_integer(value));
    }
}

/// A share of up to a thousand times the whole is told in percent with one decimal, off by no
/// more than that decimal; nothing is no percent, and a share below a tenth of a percent is
/// said to be small.
pub proof fn law_shares_are_told_in_percent(fraction: nat) -> (tenths: nat)
    requires
        fraction <= 1000 * binary64::one(),
    ensures
        fraction == 0 ==> percent_text(fraction) == text::decimal(0) + "."@ + seq![text::digit(0)]
            + "%"@,
        0 < fraction && 1001 * fraction <= binary64::one() ==> percent_text(fraction) == "<0.1%"@,
        999 * fraction >= binary64::one() ==> {
            &&& percent_text(fraction) == text::decimal(tenths / 10) + "."@ + seq![
                text::digit(tenths % 10),
            ] + "%"@
            &&& -(binary64::one() as int) <= tenths * binary64::one() - 1000 * fraction
                <= binary64::one()
        },
{
    let one = binary64::one();
    let value = binary64::times(fraction, 100);
    lemma_one_is_large();
    lemma_overflow_is_larger();
    binary64::law_rounding_is_near(fraction * 100, 1);
    binary64::law_rounding_is_near(one, 10);
    assert(value * 1 == value);
    binary64::law_one_decimal_is_near(value);
    if fraction == 0 {
        assert(0 * 100 == 0);
        binary64::lemma_nearest_zero(1);
        let tenths = binary64::half_even(0, one);
        assert(tenths == 0) by {
            vstd::arithmetic::div_mod::lemma_fundamental_div_mod_converse(0, one as int, 0, 0);
        }
    }
    binary64::half_even(value * 10, one)
}

proof fn lemma_overflow_is_larger()
    ensures
        binary64::overflow() > 200_000 * binary64::one(),
{
    vstd::arithmetic::power2::lemma2_to64();
    vstd::arithmetic::power2::lemma_pow2_adds(1074, 1024);
    vstd::arithmetic::power2::lemma_pow2_strictly_increases(18, 1024);
    lemma_one_is_large();
    let one = binary64::one();
    let more = vstd::arithmetic::power2::pow2(1024);
    assert(one * more > 200_000 * one) by (nonlinear_arith)
        requires
            more > 200_000,
            one > 0,
    ;
}

/// An instant is told in the zone of the reader, to the second, with its age beside it.
pub proof fn law_instants_are_told_in_the_readers_zone(value: i64, now: i64, east: i32)
    ensures
        0 < value <= 8210266876799 ==> instant_text(value, now, east) == local_time(
            value,
            east,
            "%Y-%m-%d %H:%M:%S"@,
        ) + " ("@ + age_text(value as int, now as int) + ")"@,
        value <= 0 ==> instant_text(value, now, east) == "unknown"@,
        -8334601228800 <= value <= 8210266876799 ==> timestamp_shown(calendar_text(value, east))
            == local_time(value, east, "%Y-%m-%d %H:%M:%S"@),
{
}

} // verus!
