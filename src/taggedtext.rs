use crate::buffer::{char_string, lemma_utf8_single_len, lossy_text, text_of_bytes};
use crate::text::NEWLINE;
use crate::texttag::{tag_le, TextTag};
use vstd::prelude::*;
use vstd::string::StringSliceAdditionalSpecFns;
use vstd::utf8::{decode_utf8, encode_utf8, valid_utf8};

verus! {

/// Where `t` goes among sorted tags: after every tag not later than it.
pub open spec fn upper_bound(s: Seq<TextTag>, t: TextTag) -> int
    decreases s.len(),
{
    if s.len() == 0 || !tag_le(s[0], t) {
        0
    } else {
        1 + upper_bound(s.drop_first(), t)
    }
}

/// `s` with `t` put after every leading tag not later than it.
pub open spec fn insert_sorted(s: Seq<TextTag>, t: TextTag) -> Seq<TextTag> {
    s.insert(upper_bound(s, t), t)
}

/// The tags of `s` put one by one, in order, into sorted position.
pub open spec fn sort_tags(s: Seq<TextTag>) -> Seq<TextTag>
    decreases s.len(),
{
    if s.len() == 0 {
        s
    } else {
        insert_sorted(sort_tags(s.drop_last()), s.last())
    }
}

/// The parts of `b` between the bytes `d`.
pub open spec fn split_on(b: Seq<u8>, d: u8) -> Seq<Seq<u8>>
    decreases b.len(),
{
    if b.len() == 0 {
        seq![Seq::<u8>::empty()]
    } else if b.last() == d {
        split_on(b.drop_last(), d).push(Seq::<u8>::empty())
    } else {
        let s = split_on(b.drop_last(), d);
        s.update(s.len() - 1, s.last().push(b.last()))
    }
}

/// Where each part starts, and one past the end: 0, then each part's length
/// and its delimiter added up.
pub open spec fn part_starts(parts: Seq<Seq<u8>>) -> Seq<int>
    decreases parts.len(),
{
    if parts.len() == 0 {
        seq![0int]
    } else {
        let c = part_starts(parts.drop_last());
        c.push(c.last() + parts.last().len() + 1)
    }
}

/// Tag `g` cut to part `i`, relative to the part's start.
pub open spec fn clip(g: TextTag, starts: Seq<int>, i: int) -> TextTag {
    let lo = if g.start_idx > starts[i] {
        g.start_idx as int
    } else {
        starts[i]
    };
    let hi = if g.end_idx < starts[i + 1] - 1 {
        g.end_idx as int
    } else {
        starts[i + 1] - 1
    };
    TextTag { tag: g.tag, start_idx: (lo - starts[i]) as usize, end_idx: (hi - starts[i]) as usize }
}

/// Tag `g` touches part `i`.
pub open spec fn overlaps(g: TextTag, starts: Seq<int>, i: int) -> bool {
    starts[i] < g.end_idx && g.start_idx < starts[i + 1]
}

/// The tags of `tags` that touch part `i`, cut to it, in order.
pub open spec fn clips_for(tags: Seq<TextTag>, starts: Seq<int>, i: int) -> Seq<TextTag>
    decreases tags.len(),
{
    if tags.len() == 0 {
        Seq::empty()
    } else if overlaps(tags.last(), starts, i) {
        clips_for(tags.drop_last(), starts, i).push(clip(tags.last(), starts, i))
    } else {
        clips_for(tags.drop_last(), starts, i)
    }
}

proof fn lemma_upper_bound(s: Seq<TextTag>, t: TextTag)
    ensures
        0 <= upper_bound(s, t) <= s.len(),
    decreases s.len(),
{
    if s.len() > 0 {
        lemma_upper_bound(s.drop_first(), t);
    }
}

proof fn lemma_split_on_nonempty(b: Seq<u8>, d: u8)
    ensures
        split_on(b, d).len() >= 1,
    decreases b.len(),
{
    if b.len() > 0 {
        lemma_split_on_nonempty(b.drop_last(), d);
    }
}

/// A text with tags over its bytes, kept sorted.
#[derive(Clone, Debug, PartialEq)]
pub struct TaggedText {
    pub text: String,
    pub tags: Vec<TextTag>,
}

/// Puts `t` into sorted position among `tags`.
fn sorted_insert(tags: &mut Vec<TextTag>, t: TextTag)
    ensures
        final(tags)@ == insert_sorted(old(tags)@, t),
{
    let ghost s = tags@;
    let mut i: usize = 0;
    proof {
        lemma_upper_bound(s, t);
        assert(s.skip(0) =~= s);
    }
    while i < tags.len() && tags[i].le(&t)
        invariant
            tags@ == s,
            i <= s.len(),
            upper_bound(s, t) == i + upper_bound(s.skip(i as int), t),
        decreases s.len() - i,
    {
        proof {
            assert(s.skip(i as int).drop_first() =~= s.skip(i as int + 1));
        }
        i = i + 1;
    }
    proof {
        if i < s.len() {
            assert(s.skip(i as int)[0] == s[i as int]);
        }
    }
    tags.insert(i, t);
}

/// The tags of `tags` in sorted order.
fn sort_tag_vec(tags: Vec<TextTag>) -> (r: Vec<TextTag>)
    ensures
        r@ == sort_tags(tags@),
{
    let mut out: Vec<TextTag> = Vec::new();
    let mut i: usize = 0;
    proof {
        assert(tags@.take(0) =~= Seq::<TextTag>::empty());
    }
    while i < tags.len()
        invariant
            i <= tags@.len(),
            out@ == sort_tags(tags@.take(i as int)),
        decreases tags@.len() - i,
    {
        proof {
            assert(tags@.take(i as int + 1).drop_last() =~= tags@.take(i as int));
            assert(tags@.take(i as int + 1).last() == tags@[i as int]);
        }
        sorted_insert(&mut out, tags[i]);
        i = i + 1;
    }
    proof {
        assert(tags@.take(tags@.len() as int) =~= tags@);
    }
    out
}

impl TaggedText {
    /// `text` with `tags`, sorted.
    pub fn new(text: String, tags: Vec<TextTag>) -> (r: TaggedText)
        ensures
            r.text == text,
            r.tags@ == sort_tags(tags@),
    {
        TaggedText { text, tags: sort_tag_vec(tags) }
    }

    pub fn text(&self) -> (r: &String)
        ensures
            *r == self.text,
    {
        &self.text
    }

    pub fn as_str(&self) -> (r: &str)
        ensures
            r@ == self.text@,
    {
        self.text.as_str()
    }

    pub fn tags(&self) -> (r: &Vec<TextTag>)
        ensures
            *r == self.tags,
    {
        &self.tags
    }

    /// Adds `texttag` in sorted position.
    pub fn push_tag(&mut self, texttag: TextTag)
        ensures
            final(self).text == old(self).text,
            final(self).tags@ == insert_sorted(old(self).tags@, texttag),
    {
        sorted_insert(&mut self.tags, texttag);
    }

    pub fn text_mut(&mut self) -> (r: &mut String)
        ensures
            *r == old(self).text,
            final(self).text == *final(r),
            final(self).tags == old(self).tags,
    {
        &mut self.text
    }

    pub fn tags_mut(&mut self) -> (r: &mut Vec<TextTag>)
        ensures
            *r == old(self).tags,
            final(self).tags == *final(r),
            final(self).text == old(self).text,
    {
        &mut self.tags
    }

    /// Splits at each space: one part per word (empty words included), each
    /// with the tags that touch it, cut to it; an empty text comes back
    /// whole.
    pub fn split_whitespace(self) -> (r: Vec<TaggedText>)
        requires
            encode_utf8(self.text@).len() < usize::MAX,
        ensures
            split_tagged_spec(self, r@, 32u8),
    {
        split_tagged(self, 32u8)
    }

    /// Joins the texts, each followed by `delimiter`, with their tags moved
    /// along; a single text comes back as it is.
    #[verifier::rlimit(40)]
    pub fn join(tagged_texts: Vec<TaggedText>, delimiter: char) -> (r: TaggedText)
        requires
            joined_len(tagged_texts@, encode_utf8(seq![delimiter]).len() as int) <= usize::MAX,
        ensures
            tagged_texts@.len() == 1 ==> r == tagged_texts@[0],
            tagged_texts@.len() != 1 ==> r.text@ == lossy_text(
                joined_bytes(tagged_texts@, encode_utf8(seq![delimiter])),
            ) && r.tags@ == sort_tags(joined_tags(tagged_texts@)),
            tagged_texts@.len() != 1 && valid_utf8(
                joined_bytes(tagged_texts@, encode_utf8(seq![delimiter])),
            ) ==> r.text@ == decode_utf8(joined_bytes(tagged_texts@, encode_utf8(seq![delimiter]))),
    {
        let mut tagged_texts = tagged_texts;
        if tagged_texts.len() == 1 {
            return tagged_texts.remove(0);
        }
        let d = char_string(delimiter);
        let dbytes = d.as_str().as_bytes();
        let ghost all = tagged_texts@;
        let ghost db = dbytes@;
        let ghost dl = db.len() as int;
        proof {
            lemma_utf8_single_len(delimiter);
        }
        let mut bytes: Vec<u8> = Vec::new();
        let mut tags: Vec<TextTag> = Vec::new();
        let mut offset: usize = 0;
        let mut i: usize = 0;
        proof {
            assert(all.take(0) =~= Seq::<TaggedText>::empty());
            assert(bytes@ =~= joined_bytes(all.take(0), db));
            assert(tags@ =~= joined_tags(all.take(0)));
        }
        while i < tagged_texts.len()
            invariant
                tagged_texts@ == all,
                db == encode_utf8(seq![delimiter]),
                dbytes@ == db,
                dl == db.len(),
                1 <= dl <= 4,
                i <= all.len(),
                bytes@ == joined_bytes(all.take(i as int), db),
                tags@ == joined_tags(all.take(i as int)),
                offset == joined_offset(all.take(i as int)),
                joined_len(all, dl) <= usize::MAX,
            decreases all.len() - i,
        {
            proof {
                assert(all.take(i as int + 1).drop_last() =~= all.take(i as int));
                assert(all.take(i as int + 1).last() == all[i as int]);
                lemma_joined_len_mono(all, dl, i as int);
                lemma_offset_le_len(all.take(i as int), dl);
                lemma_max_end_nonneg(all[i as int].tags@);
            }
            let tb = tagged_texts[i].text.as_str().as_bytes();
            let mut k: usize = 0;
            let ghost b0 = bytes@;
            while k < tb.len()
                invariant
                    k <= tb@.len(),
                    bytes@ == b0 + tb@.take(k as int),
                decreases tb@.len() - k,
            {
                bytes.push(tb[k]);
                k = k + 1;
                proof {
                    assert(bytes@ =~= b0 + tb@.take(k as int));
                }
            }
            let mut q: usize = 0;
            let ghost b1 = bytes@;
            while q < dbytes.len()
                invariant
                    q <= db.len(),
                    dbytes@ == db,
                    bytes@ == b1 + db.take(q as int),
                decreases db.len() - q,
            {
                bytes.push(dbytes[q]);
                q = q + 1;
                proof {
                    assert(bytes@ =~= b1 + db.take(q as int));
                }
            }
            proof {
                assert(tb@.take(tb@.len() as int) =~= tb@);
                assert(db.take(db.len() as int) =~= db);
                assert(bytes@ =~= joined_bytes(all.take(i as int + 1), db));
            }
            let ghost t0 = tags@;
            let mut j: usize = 0;
            proof {
                assert(all[i as int].tags@.take(0) =~= Seq::<TextTag>::empty());
                assert(tags@ =~= t0 + shift_tags(all[i as int].tags@.take(0), offset as int));
            }
            while j < tagged_texts[i].tags.len()
                invariant
                    tagged_texts@ == all,
                    i < all.len(),
                    j <= all[i as int].tags@.len(),
                    tags@ == t0 + shift_tags(all[i as int].tags@.take(j as int), offset as int),
                    offset + joined_span(all[i as int]) <= usize::MAX,
                decreases all[i as int].tags@.len() - j,
            {
                let g = tagged_texts[i].tags[j];
                proof {
                    assert(all[i as int].tags@.take(j as int + 1).drop_last() =~= all[i as int].tags@.take(j as int));
                    assert(all[i as int].tags@.take(j as int + 1).last() == g);
                    lemma_max_end(all[i as int].tags@, j as int);
                }
                tags.push(TextTag { tag: g.tag, start_idx: g.start_idx + offset, end_idx: g.end_idx + offset });
                j = j + 1;
                proof {
                    assert(tags@ =~= t0 + shift_tags(all[i as int].tags@.take(j as int), offset as int));
                }
            }
            proof {
                assert(all[i as int].tags@.take(all[i as int].tags@.len() as int) =~= all[i as int].tags@);
                assert(tags@ =~= joined_tags(all.take(i as int + 1)));
            }
            offset = offset + tb.len() + 1;
            i = i + 1;
        }
        proof {
            assert(all.take(all.len() as int) =~= all);
        }
        let text = text_of_bytes(&bytes);
        TaggedText::new(text, tags)
    }
}

/// The bytes of the texts, each followed by `d`.
pub open spec fn joined_bytes(ts: Seq<TaggedText>, d: Seq<u8>) -> Seq<u8>
    decreases ts.len(),
{
    if ts.len() == 0 {
        Seq::empty()
    } else {
        joined_bytes(ts.drop_last(), d) + encode_utf8(ts.last().text@) + d
    }
}

/// The length of `joined_bytes`, for a delimiter of `dl` bytes.
pub open spec fn joined_len(ts: Seq<TaggedText>, dl: int) -> int
    decreases ts.len(),
{
    if ts.len() == 0 {
        0
    } else {
        joined_len(ts.drop_last(), dl) + encode_utf8(ts.last().text@).len() + dl + joined_span(ts.last())
    }
}

/// How far the tags of a text may reach past its start.
pub open spec fn joined_span(t: TaggedText) -> int {
    max_end(t.tags@)
}

pub open spec fn max_end(s: Seq<TextTag>) -> int
    decreases s.len(),
{
    if s.len() == 0 {
        0
    } else {
        let m = max_end(s.drop_last());
        let e = if s.last().start_idx > s.last().end_idx {
            s.last().start_idx as int
        } else {
            s.last().end_idx as int
        };
        if m > e {
            m
        } else {
            e
        }
    }
}

/// Where the next text starts when tags are moved: each text's byte length
/// and one more, added up.
pub open spec fn joined_offset(ts: Seq<TaggedText>) -> int
    decreases ts.len(),
{
    if ts.len() == 0 {
        0
    } else {
        joined_offset(ts.drop_last()) + encode_utf8(ts.last().text@).len() + 1
    }
}

/// The tags moved `k` bytes on.
pub open spec fn shift_tags(s: Seq<TextTag>, k: int) -> Seq<TextTag>
    decreases s.len(),
{
    if s.len() == 0 {
        Seq::empty()
    } else {
        shift_tags(s.drop_last(), k).push(
            TextTag {
                tag: s.last().tag,
                start_idx: (s.last().start_idx + k) as usize,
                end_idx: (s.last().end_idx + k) as usize,
            },
        )
    }
}

/// The tags of all the texts, each moved to where its text starts.
pub open spec fn joined_tags(ts: Seq<TaggedText>) -> Seq<TextTag>
    decreases ts.len(),
{
    if ts.len() == 0 {
        Seq::empty()
    } else {
        joined_tags(ts.drop_last()) + shift_tags(ts.last().tags@, joined_offset(ts.drop_last()))
    }
}

proof fn lemma_max_end(s: Seq<TextTag>, j: int)
    requires
        0 <= j < s.len(),
    ensures
        s[j].start_idx <= max_end(s),
        s[j].end_idx <= max_end(s),
        max_end(s.take(j)) <= max_end(s),
    decreases s.len(),
{
    if j < s.len() - 1 {
        lemma_max_end(s.drop_last(), j);
        assert(s.drop_last()[j] == s[j]);
        assert(s.drop_last().take(j) =~= s.take(j));
    } else {
        assert(s.take(j) =~= s.drop_last());
    }
}

proof fn lemma_joined_len_mono(ts: Seq<TaggedText>, dl: int, i: int)
    requires
        0 <= i <= ts.len(),
        dl >= 0,
    ensures
        joined_len(ts.take(i), dl) <= joined_len(ts, dl),
        i < ts.len() ==> joined_len(ts.take(i), dl) + encode_utf8(ts[i].text@).len() + dl
            + joined_span(ts[i]) <= joined_len(ts, dl),
    decreases ts.len(),
{
    if i == ts.len() {
        assert(ts.take(i) =~= ts);
    } else {
        lemma_max_end_nonneg(ts.last().tags@);
        if i == ts.len() - 1 {
            assert(ts.take(i) =~= ts.drop_last());
        } else {
            lemma_joined_len_mono(ts.drop_last(), dl, i);
            assert(ts.drop_last().take(i) =~= ts.take(i));
            assert(ts.drop_last()[i] == ts[i]);
        }
    }
}

proof fn lemma_max_end_nonneg(s: Seq<TextTag>)
    ensures
        max_end(s) >= 0,
    decreases s.len(),
{
    if s.len() > 0 {
        lemma_max_end_nonneg(s.drop_last());
    }
}

proof fn lemma_offset_le_len(ts: Seq<TaggedText>, dl: int)
    requires
        dl >= 1,
    ensures
        joined_offset(ts) <= joined_len(ts, dl),
    decreases ts.len(),
{
    if ts.len() > 0 {
        lemma_offset_le_len(ts.drop_last(), dl);
        lemma_max_end_nonneg(ts.last().tags@);
    }
}

/// What splitting a tagged text at the bytes `d` gives: for an empty text
/// the text itself; otherwise one part per piece between delimiters, with
/// the tags that touch it, cut to it and sorted.
pub open spec fn split_tagged_spec(t: TaggedText, r: Seq<TaggedText>, d: u8) -> bool {
    let b = encode_utf8(t.text@);
    if b.len() == 0 {
        r == seq![t]
    } else {
        let parts = split_on(b, d);
        let starts = part_starts(parts);
        &&& r.len() == parts.len()
        &&& forall|i: int|
            0 <= i < r.len() ==> (#[trigger] r[i]).text@ == lossy_text(parts[i]) && r[i].tags@
                == sort_tags(clips_for(t.tags@, starts, i)) && (valid_utf8(parts[i]) ==> r[i].text@
                == decode_utf8(parts[i]))
    }
}

/// The parts of `split_on` fill the text, each with one delimiter after it.
proof fn lemma_part_starts_split(b: Seq<u8>, d: u8)
    ensures
        part_starts(split_on(b, d)).len() == split_on(b, d).len() + 1,
        part_starts(split_on(b, d)).last() == b.len() + 1,
        forall|i: int, j: int|
            0 <= i < j < part_starts(split_on(b, d)).len() ==> part_starts(split_on(b, d))[i]
                < part_starts(split_on(b, d))[j],
        part_starts(split_on(b, d))[0] == 0,
    decreases b.len(),
{
    lemma_split_on_nonempty(b, d);
    lemma_part_starts_len(split_on(b, d));
    if b.len() == 0 {
        let e = seq![Seq::<u8>::empty()];
        assert(e.drop_last() =~= Seq::<Seq<u8>>::empty());
        assert(part_starts(Seq::<Seq<u8>>::empty()) =~= seq![0int]);
        assert(part_starts(e) =~= seq![0int, 1int]);
    } else {
        let s = split_on(b.drop_last(), d);
        lemma_part_starts_split(b.drop_last(), d);
        lemma_split_on_nonempty(b.drop_last(), d);
        lemma_part_starts_len(s);
        lemma_part_starts_len(s.drop_last());
        let c = part_starts(s.drop_last());
        assert(part_starts(s) == c.push(c.last() + s.last().len() + 1));
        if b.last() == d {
            let s2 = s.push(Seq::<u8>::empty());
            assert(s2.drop_last() =~= s);
            assert(part_starts(s2) == part_starts(s).push(part_starts(s).last() + 1));
        } else {
            let s2 = s.update(s.len() - 1, s.last().push(b.last()));
            assert(s2.drop_last() =~= s.drop_last());
            assert(s2.last() == s.last().push(b.last()));
            assert(part_starts(s2) == c.push(c.last() + s.last().len() + 2));
            assert forall|i: int, j: int|
                0 <= i < j < part_starts(s2).len() implies part_starts(s2)[i] < part_starts(s2)[j] by {
                if j < part_starts(s2).len() - 1 {
                    assert(part_starts(s2)[i] == part_starts(s)[i]);
                    assert(part_starts(s2)[j] == part_starts(s)[j]);
                } else {
                    assert(part_starts(s2)[i] <= part_starts(s)[i]);
                    if i < part_starts(s).len() - 1 {
                        assert(part_starts(s)[i] < part_starts(s)[part_starts(s).len() - 1]);
                    }
                }
            }
        }
    }
}

/// Splits `t` at the bytes `d` (see `split_tagged_spec`).
#[verifier::rlimit(40)]
fn split_tagged(t: TaggedText, d: u8) -> (r: Vec<TaggedText>)
    requires
        encode_utf8(t.text@).len() < usize::MAX,
    ensures
        split_tagged_spec(t, r@, d),
{
    let n = t.text.as_str().as_bytes().len();
    if n == 0 {
        let mut v: Vec<TaggedText> = Vec::new();
        v.push(t);
        proof {
            assert(v@ =~= seq![t]);
        }
        return v;
    }
    let bytes = t.text.as_str().as_bytes();
    let ghost b = bytes@;
    let mut parts: Vec<Vec<u8>> = Vec::new();
    let mut cur: Vec<u8> = Vec::new();
    let mut i: usize = 0;
    proof {
        assert(b.take(0) =~= Seq::<u8>::empty());
        assert(parts@.map_values(|v: Vec<u8>| v@).push(cur@) =~= split_on(b.take(0), d));
    }
    while i < bytes.len()
        invariant
            i <= b.len(),
            bytes@ == b,
            parts@.map_values(|v: Vec<u8>| v@).push(cur@) == split_on(b.take(i as int), d),
        decreases b.len() - i,
    {
        proof {
            assert(b.take(i as int + 1).drop_last() =~= b.take(i as int));
            assert(b.take(i as int + 1).last() == b[i as int]);
            lemma_split_on_nonempty(b.take(i as int), d);
        }
        if bytes[i] == d {
            let done = cur;
            parts.push(done);
            cur = Vec::new();
            proof {
                assert(parts@.map_values(|v: Vec<u8>| v@).push(cur@) =~= split_on(b.take(i as int + 1), d));
            }
        } else {
            let ghost before = parts@.map_values(|v: Vec<u8>| v@).push(cur@);
            cur.push(bytes[i]);
            proof {
                assert(parts@.map_values(|v: Vec<u8>| v@).push(cur@) =~= before.update(
                    before.len() - 1,
                    before.last().push(b[i as int]),
                ));
            }
        }
        i = i + 1;
    }
    let ghost before_last = parts@.map_values(|v: Vec<u8>| v@).push(cur@);
    parts.push(cur);
    let ghost ps = parts@.map_values(|v: Vec<u8>| v@);
    proof {
        assert(ps =~= before_last);
        assert(b.take(b.len() as int) =~= b);
        lemma_part_starts_split(b, d);
    }
    let ghost starts_spec = part_starts(ps);
    let mut starts: Vec<usize> = Vec::new();
    starts.push(0);
    let mut j: usize = 0;
    proof {
        assert(ps.take(0) =~= Seq::<Seq<u8>>::empty());
    }
    while j < parts.len()
        invariant
            j <= ps.len(),
            ps == parts@.map_values(|v: Vec<u8>| v@),
            ps == split_on(b, d),
            starts@.len() == j + 1,
            forall|m: int| 0 <= m <= j ==> starts@[m] as int == part_starts(ps.take(j as int))[m],
            starts_spec == part_starts(ps),
            starts_spec.len() == ps.len() + 1,
            starts_spec.last() == b.len() + 1,
            b.len() < usize::MAX,
            forall|x: int, y: int| 0 <= x < y < starts_spec.len() ==> starts_spec[x] < starts_spec[y],
        decreases ps.len() - j,
    {
        proof {
            assert(ps.take(j as int + 1).drop_last() =~= ps.take(j as int));
            assert(ps.take(j as int + 1).last() == ps[j as int]);
            lemma_part_starts_prefix(ps, j as int + 1);
            assert(starts_spec[j as int + 1] <= starts_spec.last());
        }
        let next = starts[j] + parts[j].len() + 1;
        starts.push(next);
        j = j + 1;
    }
    proof {
        assert(ps.take(ps.len() as int) =~= ps);
    }
    let mut out: Vec<TaggedText> = Vec::new();
    let mut k: usize = 0;
    while k < parts.len()
        invariant
            k <= ps.len(),
            ps == parts@.map_values(|v: Vec<u8>| v@),
            ps == split_on(b, d),
            b == encode_utf8(t.text@),
            starts@.len() == ps.len() + 1,
            forall|m: int| 0 <= m <= ps.len() ==> starts@[m] as int == starts_spec[m],
            starts_spec == part_starts(ps),
            forall|x: int, y: int| 0 <= x < y < starts_spec.len() ==> starts_spec[x] < starts_spec[y],
            starts_spec.len() == ps.len() + 1,
            out@.len() == k,
            forall|m: int| 0 <= m < k ==> (#[trigger] out@[m]).text@ == lossy_text(ps[m]) && out@[m].tags@
                == sort_tags(clips_for(t.tags@, starts_spec, m)) && (valid_utf8(ps[m]) ==> out@[m].text@
                == decode_utf8(ps[m])),
        decreases ps.len() - k,
    {
        let mut tags: Vec<TextTag> = Vec::new();
        let lo = starts[k];
        let hi = starts[k + 1];
        let mut q: usize = 0;
        proof {
            assert(starts@[k as int] as int == starts_spec[k as int]);
            assert(starts@[k as int + 1] as int == starts_spec[k as int + 1]);
            assert(starts_spec[k as int] < starts_spec[k as int + 1]);
            assert(t.tags@.take(0) =~= Seq::<TextTag>::empty());
            assert(parts@[k as int]@ == ps[k as int]);
        }
        while q < t.tags.len()
            invariant
                q <= t.tags@.len(),
                lo as int == starts_spec[k as int],
                hi as int == starts_spec[k as int + 1],
                lo < hi,
                tags@ == sort_tags(clips_for(t.tags@.take(q as int), starts_spec, k as int)),
            decreases t.tags@.len() - q,
        {
            let g = t.tags[q];
            proof {
                assert(t.tags@.take(q as int + 1).drop_last() =~= t.tags@.take(q as int));
                assert(t.tags@.take(q as int + 1).last() == g);
            }
            if lo < g.end_idx && g.start_idx < hi {
                let s0 = if g.start_idx > lo { g.start_idx } else { lo };
                let e0 = if g.end_idx < hi - 1 { g.end_idx } else { hi - 1 };
                let c = TextTag { tag: g.tag, start_idx: s0 - lo, end_idx: e0 - lo };
                proof {
                    assert(c == clip(g, starts_spec, k as int));
                    let cl = clips_for(t.tags@.take(q as int), starts_spec, k as int);
                    assert(sort_tags(cl.push(c)) == insert_sorted(sort_tags(cl), c)) by {
                        assert(cl.push(c).drop_last() =~= cl);
                    }
                }
                sorted_insert(&mut tags, c);
            }
            q = q + 1;
        }
        proof {
            assert(t.tags@.take(t.tags@.len() as int) =~= t.tags@);
        }
        let piece = TaggedText { text: text_of_bytes(&parts[k]), tags };
        out.push(piece);
        k = k + 1;
    }
    out
}

proof fn lemma_part_starts_prefix(ps: Seq<Seq<u8>>, j: int)
    requires
        0 <= j <= ps.len(),
    ensures
        part_starts(ps.take(j)).len() == j + 1,
        forall|m: int| 0 <= m <= j ==> part_starts(ps.take(j))[m] == part_starts(ps)[m],
    decreases ps.len(),
{
    if j == ps.len() {
        assert(ps.take(j) =~= ps);
        lemma_part_starts_len(ps);
    } else {
        lemma_part_starts_prefix(ps.drop_last(), j);
        assert(ps.drop_last().take(j) =~= ps.take(j));
        lemma_part_starts_len(ps.drop_last());
    }
}

proof fn lemma_part_starts_len(ps: Seq<Seq<u8>>)
    ensures
        part_starts(ps).len() == ps.len() + 1,
    decreases ps.len(),
{
    if ps.len() > 0 {
        lemma_part_starts_len(ps.drop_last());
    }
}

/// Splits a tagged text into its lines, each with the tags that touch it,
/// cut to it; an empty text comes back whole.
pub fn apply_syntax_tags(tagged_text: TaggedText) -> (r: Vec<TaggedText>)
    requires
        encode_utf8(tagged_text.text@).len() < usize::MAX,
    ensures
        split_tagged_spec(tagged_text, r@, NEWLINE),
{
    split_tagged(tagged_text, NEWLINE)
}

} // verus!
