use crate::answer::{answer_bytes, answer_spec, AnswerView, DnsAnswer};
use crate::error::DnsError;
use crate::header::{header_bytes, header_of, DnsHeader, HEADER_LEN};
use crate::name::labels_fit;
use crate::question::{question_bytes, question_spec, DnsQuestion, QuestionView};
use vstd::prelude::*;

verus! {

/// A whole DNS message: header, questions and answers, in wire order.
#[derive(Debug, Clone)]
pub struct DnsPacket {
    pub header: DnsHeader,
    pub questions: Vec<DnsQuestion>,
    pub answers: Vec<DnsAnswer>,
}

/// A packet as values: its header and the views of its entries.
pub type PacketView = (DnsHeader, Seq<QuestionView>, Seq<AnswerView>);

impl View for DnsPacket {
    type V = PacketView;

    open spec fn view(&self) -> PacketView {
        (self.header, question_views(self.questions@), answer_views(self.answers@))
    }
}

pub open spec fn question_views(qs: Seq<DnsQuestion>) -> Seq<QuestionView> {
    qs.map_values(|q: DnsQuestion| q@)
}

pub open spec fn answer_views(ans: Seq<DnsAnswer>) -> Seq<AnswerView> {
    ans.map_values(|a: DnsAnswer| a@)
}

pub open spec fn packet_views(ps: Seq<DnsPacket>) -> Seq<PacketView> {
    ps.map_values(|p: DnsPacket| p@)
}

/// The first `n` questions from `pos` on, and the position after them.
pub open spec fn questions_spec(buf: Seq<u8>, pos: int, n: nat) -> Result<
    (Seq<QuestionView>, int),
    DnsError,
>
    decreases n,
{
    if n == 0 {
        Ok((Seq::empty(), pos))
    } else {
        match questions_spec(buf, pos, (n - 1) as nat) {
            Err(e) => Err(e),
            Ok((qs, p)) => match question_spec(buf, p) {
                Err(e) => Err(e),
                Ok((q, next)) => Ok((qs.push(q), next)),
            },
        }
    }
}

/// The first `n` answers from `pos` on, and the position after them.
pub open spec fn answers_spec(buf: Seq<u8>, pos: int, n: nat) -> Result<
    (Seq<AnswerView>, int),
    DnsError,
>
    decreases n,
{
    if n == 0 {
        Ok((Seq::empty(), pos))
    } else {
        match answers_spec(buf, pos, (n - 1) as nat) {
            Err(e) => Err(e),
            Ok((ans, p)) => match answer_spec(buf, p) {
                Err(e) => Err(e),
                Ok((a, next)) => Ok((ans.push(a), next)),
            },
        }
    }
}

/// What decoding a whole message gives: the header, then as many questions
/// and answers as it counts, or the first error met.
pub open spec fn packet_spec(buf: Seq<u8>) -> Result<PacketView, DnsError> {
    if buf.len() < 12 {
        Err(DnsError::MalformedHeader)
    } else {
        let h = header_of(buf);
        match questions_spec(buf, 12, h.qdcount as nat) {
            Err(e) => Err(e),
            Ok((qs, p)) => match answers_spec(buf, p, h.ancount as nat) {
                Err(e) => Err(e),
                Ok((ans, _)) => Ok((h, qs, ans)),
            },
        }
    }
}

/// The header that each single-question packet of `split` carries.
pub open spec fn split_header(h: DnsHeader) -> DnsHeader {
    DnsHeader { qdcount: 1, ancount: 0, ..h }
}

/// One packet per question, in order, each with that question alone.
pub open spec fn split_view(p: PacketView) -> Seq<PacketView> {
    Seq::new(
        p.1.len(),
        |i: int| (split_header(p.0), seq![p.1[i]], Seq::<AnswerView>::empty()),
    )
}

/// The questions of all packets, in order.
pub open spec fn merged_questions(ps: Seq<PacketView>) -> Seq<QuestionView>
    decreases ps.len(),
{
    if ps.len() == 0 {
        Seq::empty()
    } else {
        ps[0].1 + merged_questions(ps.drop_first())
    }
}

/// The answers of all packets, in order.
pub open spec fn merged_answers(ps: Seq<PacketView>) -> Seq<AnswerView>
    decreases ps.len(),
{
    if ps.len() == 0 {
        Seq::empty()
    } else {
        ps[0].2 + merged_answers(ps.drop_first())
    }
}

/// The combined reply: the first header with counts that match the entries,
/// then every question and every answer in the order of the packets.
pub open spec fn merge_view(ps: Seq<PacketView>) -> PacketView
    recommends
        ps.len() > 0,
{
    let qs = merged_questions(ps);
    let ans = merged_answers(ps);
    (DnsHeader { qdcount: qs.len() as u16, ancount: ans.len() as u16, ..ps[0].0 }, qs, ans)
}

/// The bytes of each question in turn.
pub open spec fn questions_bytes(qs: Seq<QuestionView>) -> Seq<u8>
    decreases qs.len(),
{
    if qs.len() == 0 {
        Seq::empty()
    } else {
        questions_bytes(qs.drop_last()) + question_bytes(qs.last())
    }
}

/// The bytes of each answer in turn.
pub open spec fn answers_bytes(ans: Seq<AnswerView>) -> Seq<u8>
    decreases ans.len(),
{
    if ans.len() == 0 {
        Seq::empty()
    } else {
        answers_bytes(ans.drop_last()) + answer_bytes(ans.last())
    }
}

/// The wire form of a packet: header, questions, answers, with no padding.
pub open spec fn packet_bytes(p: PacketView) -> Seq<u8> {
    header_bytes(p.0) + questions_bytes(p.1) + answers_bytes(p.2)
}

/// Every name in the packet can be written with one-byte label lengths.
pub open spec fn packet_fits(p: PacketView) -> bool {
    &&& forall|i: int| 0 <= i < p.1.len() ==> labels_fit(#[trigger] p.1[i].0)
    &&& forall|i: int| 0 <= i < p.2.len() ==> labels_fit(#[trigger] p.2[i].0)
}

fn copy_names(names: &Vec<String>) -> (r: Vec<String>)
    ensures
        r.deep_view() == names.deep_view(),
{
    let r = names.clone();
    assert(r.deep_view() =~= names.deep_view());
    r
}

fn copy_question(q: &DnsQuestion) -> (r: DnsQuestion)
    ensures
        r@ == q@,
{
    DnsQuestion { names: copy_names(&q.names), qtype: q.qtype, qclass: q.qclass }
}

impl DnsPacket {
    /// Decodes a whole message: the header, then `qdcount` questions and
    /// `ancount` answers read in turn from byte twelve on.
    pub fn new(buffer: &[u8]) -> (r: Result<DnsPacket, DnsError>)
        ensures
            match r {
                Ok(p) => packet_spec(buffer@) == Ok::<PacketView, DnsError>(p@),
                Err(e) => packet_spec(buffer@) == Err::<PacketView, DnsError>(e),
            },
            r matches Ok(p) ==> p.questions@.len() == p.header.qdcount && p.answers@.len()
                == p.header.ancount,
    {
        let header = match DnsHeader::new(buffer) {
            Ok(h) => h,
            Err(e) => {
                return Err(e);
            },
        };
        let ghost buf = buffer@;
        let mut cursor: usize = HEADER_LEN;
        let mut questions: Vec<DnsQuestion> = Vec::new();
        let mut i: u16 = 0;
        assert(question_views(questions@) =~= Seq::<QuestionView>::empty());
        while i < header.qdcount
            invariant
                buf == buffer@,
                buf.len() >= 12,
                header == header_of(buf),
                i <= header.qdcount,
                questions_spec(buf, 12, i as nat) == Ok::<(Seq<QuestionView>, int), DnsError>(
                    (question_views(questions@), cursor as int),
                ),
            decreases header.qdcount - i,
        {
            let ghost before = question_views(questions@);
            match DnsQuestion::new(buffer, &mut cursor) {
                Ok(q) => {
                    questions.push(q);
                    assert(question_views(questions@) =~= before.push(q@));
                },
                Err(e) => {
                    proof {
                        lemma_questions_err_stays(buf, 12, (i + 1) as nat, header.qdcount as nat);
                    }
                    return Err(e);
                },
            }
            i = i + 1;
        }
        let ghost after_questions = cursor as int;
        let mut answers: Vec<DnsAnswer> = Vec::new();
        let mut j: u16 = 0;
        assert(answer_views(answers@) =~= Seq::<AnswerView>::empty());
        while j < header.ancount
            invariant
                buf == buffer@,
                buf.len() >= 12,
                header == header_of(buf),
                j <= header.ancount,
                questions_spec(buf, 12, header.qdcount as nat) == Ok::<
                    (Seq<QuestionView>, int),
                    DnsError,
                >((question_views(questions@), after_questions)),
                answers_spec(buf, after_questions, j as nat) == Ok::<
                    (Seq<AnswerView>, int),
                    DnsError,
                >((answer_views(answers@), cursor as int)),
            decreases header.ancount - j,
        {
            let ghost before = answer_views(answers@);
            match DnsAnswer::new(buffer, &mut cursor) {
                Ok(a) => {
                    answers.push(a);
                    assert(answer_views(answers@) =~= before.push(a@));
                },
                Err(e) => {
                    proof {
                        lemma_answers_err_stays(
                            buf,
                            after_questions,
                            (j + 1) as nat,
                            header.ancount as nat,
                        );
                    }
                    return Err(e);
                },
            }
            j = j + 1;
        }
        proof {
            lemma_questions_count(buf, 12, header.qdcount as nat);
            lemma_answers_count(buf, after_questions, header.ancount as nat);
        }
        Ok(DnsPacket { header, questions, answers })
    }

    /// One packet per question, in order: each carries the header with one
    /// question and no answer counted, that question alone, and no answers.
    pub fn split(&self) -> (r: Vec<DnsPacket>)
        ensures
            packet_views(r@) == split_view(self@),
    {
        let header = DnsHeader { qdcount: 1, ancount: 0, ..self.header };
        let ghost whole = self@;
        let mut out: Vec<DnsPacket> = Vec::new();
        let mut i: usize = 0;
        assert(packet_views(out@) =~= split_view(whole).take(0));
        while i < self.questions.len()
            invariant
                whole == self@,
                i <= self.questions@.len(),
                header == split_header(self.header),
                packet_views(out@) =~= split_view(whole).take(i as int),
            decreases self.questions@.len() - i,
        {
            let q = copy_question(&self.questions[i]);
            let ghost qv = q@;
            let single = DnsPacket { header, questions: vec![q], answers: Vec::new() };
            assert(single@.1 =~= seq![qv]);
            assert(single@.2 =~= Seq::<AnswerView>::empty());
            let ghost before = packet_views(out@);
            out.push(single);
            assert(packet_views(out@) =~= before.push(single@));
            assert(split_view(whole).take(i + 1) =~= split_view(whole).take(i as int).push(
                single@,
            ));
            i += 1;
        }
        assert(split_view(whole).take(i as int) =~= split_view(whole));
        out
    }

    /// Combines the replies to the packets of `split`, given in the order
    /// they were sent: the first reply's header, with counts set to the
    /// number of questions and answers gathered, then every question and
    /// every answer in reply order. No replies at all is an error.
    pub fn merge(dns_packets: Vec<DnsPacket>) -> (r: Result<DnsPacket, DnsError>)
        requires
            merged_questions(packet_views(dns_packets@)).len() <= 0xffff,
            merged_answers(packet_views(dns_packets@)).len() <= 0xffff,
        ensures
            dns_packets@.len() == 0 <==> r == Err::<DnsPacket, DnsError>(DnsError::EmptyMerge),
            dns_packets@.len() > 0 ==> (r matches Ok(p) && p@ == merge_view(
                packet_views(dns_packets@),
            )),
    {
        if dns_packets.len() == 0 {
            return Err(DnsError::EmptyMerge);
        }
        let first = dns_packets[0].header;
        let ghost all = packet_views(dns_packets@);
        let mut packets = dns_packets;
        let mut questions: Vec<DnsQuestion> = Vec::new();
        let mut answers: Vec<DnsAnswer> = Vec::new();
        assert(question_views(questions@) + merged_questions(all) =~= merged_questions(all));
        assert(answer_views(answers@) + merged_answers(all) =~= merged_answers(all));
        while packets.len() > 0
            invariant
                merged_questions(all) == question_views(questions@) + merged_questions(
                    packet_views(packets@),
                ),
                merged_answers(all) == answer_views(answers@) + merged_answers(
                    packet_views(packets@),
                ),
            decreases packets@.len(),
        {
            let ghost views = packet_views(packets@);
            let ghost qs = question_views(questions@);
            let ghost ans = answer_views(answers@);
            let mut p = packets.remove(0);
            let ghost pv = p@;
            assert(views[0] == pv);
            assert(packet_views(packets@) =~= views.drop_first());
            questions.append(&mut p.questions);
            answers.append(&mut p.answers);
            assert(question_views(questions@) =~= qs + pv.1);
            assert(answer_views(answers@) =~= ans + pv.2);
            assert(qs + (pv.1 + merged_questions(views.drop_first())) =~= (qs + pv.1)
                + merged_questions(views.drop_first()));
            assert(ans + (pv.2 + merged_answers(views.drop_first())) =~= (ans + pv.2)
                + merged_answers(views.drop_first()));
        }
        assert(question_views(questions@) =~= merged_questions(all));
        assert(answer_views(answers@) =~= merged_answers(all));
        let header = DnsHeader {
            qdcount: questions.len() as u16,
            ancount: answers.len() as u16,
            ..first
        };
        Ok(DnsPacket { header, questions, answers })
    }

    /// Encodes the packet: header, each question, each answer, back to back.
    pub fn to_bytes(&self) -> (r: Vec<u8>)
        requires
            packet_fits(self@),
        ensures
            r@ == packet_bytes(self@),
    {
        let ghost v = self@;
        let mut bytes = self.header.to_bytes();
        let mut i: usize = 0;
        while i < self.questions.len()
            invariant
                v == self@,
                packet_fits(v),
                i <= self.questions@.len(),
                bytes@ == header_bytes(v.0) + questions_bytes(v.1.take(i as int)),
            decreases self.questions@.len() - i,
        {
            assert(v.1[i as int] == self.questions@[i as int]@);
            let mut q = self.questions[i].to_bytes();
            bytes.append(&mut q);
            assert(v.1.take(i + 1).drop_last() =~= v.1.take(i as int));
            i += 1;
        }
        assert(v.1.take(i as int) =~= v.1);
        let mut j: usize = 0;
        while j < self.answers.len()
            invariant
                v == self@,
                packet_fits(v),
                j <= self.answers@.len(),
                bytes@ == header_bytes(v.0) + questions_bytes(v.1) + answers_bytes(
                    v.2.take(j as int),
                ),
            decreases self.answers@.len() - j,
        {
            assert(v.2[j as int] == self.answers@[j as int]@);
            let mut a = self.answers[j].to_bytes();
            bytes.append(&mut a);
            assert(v.2.take(j + 1).drop_last() =~= v.2.take(j as int));
            j += 1;
        }
        assert(v.2.take(j as int) =~= v.2);
        bytes
    }
}

/// A reply that an upstream resolver might give to `request`: the same
/// header and question, with `record` as its one answer.
pub open spec fn echo_reply(request: PacketView, record: AnswerView) -> PacketView {
    (request.0, request.1, seq![record])
}

/// Merging packets that each hold one question gives those questions in order.
proof fn lemma_merge_single_questions(ps: Seq<PacketView>)
    requires
        forall|i: int| 0 <= i < ps.len() ==> (#[trigger] ps[i]).1.len() == 1,
    ensures
        merged_questions(ps) == Seq::new(ps.len(), |i: int| ps[i].1[0]),
    decreases ps.len(),
{
    if ps.len() > 0 {
        let rest = ps.drop_first();
        assert forall|i: int| 0 <= i < rest.len() implies (#[trigger] rest[i]).1.len() == 1 by {
            assert(rest[i] == ps[i + 1]);
        }
        lemma_merge_single_questions(rest);
        assert(ps[0].1 =~= seq![ps[0].1[0]]);
        assert(merged_questions(ps) =~= Seq::new(ps.len(), |i: int| ps[i].1[0]));
    }
}

/// Merging packets that each hold one answer gives those answers in order.
proof fn lemma_merge_single_answers(ps: Seq<PacketView>)
    requires
        forall|i: int| 0 <= i < ps.len() ==> (#[trigger] ps[i]).2.len() == 1,
    ensures
        merged_answers(ps) == Seq::new(ps.len(), |i: int| ps[i].2[0]),
    decreases ps.len(),
{
    if ps.len() > 0 {
        let rest = ps.drop_first();
        assert forall|i: int| 0 <= i < rest.len() implies (#[trigger] rest[i]).2.len() == 1 by {
            assert(rest[i] == ps[i + 1]);
        }
        lemma_merge_single_answers(rest);
        assert(ps[0].2 =~= seq![ps[0].2[0]]);
        assert(merged_answers(ps) =~= Seq::new(ps.len(), |i: int| ps[i].2[0]));
    }
}

/// Splitting a query of `n` questions and no answers, answering each part
/// with its own question and one record, and merging the replies in order
/// gives back the questions in their order, the records in the same order,
/// and `n` as both the question and the answer count.
pub proof fn lemma_split_merge_identity(query: PacketView, records: Seq<AnswerView>)
    requires
        0 < query.1.len() <= 0xffff,
        query.2.len() == 0,
        records.len() == query.1.len(),
    ensures
        ({
            let replies = Seq::new(
                query.1.len(),
                |i: int| echo_reply(split_view(query)[i], records[i]),
            );
            let merged = merge_view(replies);
            &&& merged.0 == DnsHeader {
                qdcount: query.1.len() as u16,
                ancount: query.1.len() as u16,
                ..query.0
            }
            &&& merged.1 == query.1
            &&& merged.2 == records
        }),
{
    let replies = Seq::new(query.1.len(), |i: int| echo_reply(split_view(query)[i], records[i]));
    assert forall|i: int| 0 <= i < replies.len() implies (#[trigger] replies[i]).1.len() == 1
        && replies[i].2.len() == 1 by {}
    lemma_merge_single_questions(replies);
    lemma_merge_single_answers(replies);
    assert(merged_questions(replies) =~= query.1);
    assert(merged_answers(replies) =~= records);
}

/// Once decoding the questions has failed, decoding more of them fails the same way.
proof fn lemma_questions_err_stays(buf: Seq<u8>, pos: int, k: nat, n: nat)
    requires
        k <= n,
        questions_spec(buf, pos, k) is Err,
    ensures
        questions_spec(buf, pos, n) == questions_spec(buf, pos, k),
    decreases n - k,
{
    if k < n {
        lemma_questions_err_stays(buf, pos, k, (n - 1) as nat);
    }
}

/// Once decoding the answers has failed, decoding more of them fails the same way.
proof fn lemma_answers_err_stays(buf: Seq<u8>, pos: int, k: nat, n: nat)
    requires
        k <= n,
        answers_spec(buf, pos, k) is Err,
    ensures
        answers_spec(buf, pos, n) == answers_spec(buf, pos, k),
    decreases n - k,
{
    if k < n {
        lemma_answers_err_stays(buf, pos, k, (n - 1) as nat);
    }
}

/// Decoding `n` questions that succeeds gives exactly `n` of them.
pub proof fn lemma_questions_count(buf: Seq<u8>, pos: int, n: nat)
    ensures
        questions_spec(buf, pos, n) matches Ok((qs, _)) ==> qs.len() == n,
    decreases n,
{
    if n > 0 {
        lemma_questions_count(buf, pos, (n - 1) as nat);
    }
}

/// Decoding `n` answers that succeeds gives exactly `n` of them.
pub proof fn lemma_answers_count(buf: Seq<u8>, pos: int, n: nat)
    ensures
        answers_spec(buf, pos, n) matches Ok((ans, _)) ==> ans.len() == n,
    decreases n,
{
    if n > 0 {
        lemma_answers_count(buf, pos, (n - 1) as nat);
    }
}

/// A decoded packet holds as many questions and answers as its header counts.
pub proof fn lemma_parsed_counts_match(buf: Seq<u8>)
    requires
        packet_spec(buf) is Ok,
    ensures
        packet_spec(buf)->Ok_0.1.len() == packet_spec(buf)->Ok_0.0.qdcount,
        packet_spec(buf)->Ok_0.2.len() == packet_spec(buf)->Ok_0.0.ancount,
{
    let h = header_of(buf);
    lemma_questions_count(buf, 12, h.qdcount as nat);
    let p = questions_spec(buf, 12, h.qdcount as nat)->Ok_0.1;
    lemma_answers_count(buf, p, h.ancount as nat);
}

} // verus!
