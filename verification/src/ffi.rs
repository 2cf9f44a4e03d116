//! What the C interface reports: the flat record of an event, and the
//! drive of the muxer from the demuxer's queue. The `extern "C"` entry
//! points that hand these to a host live outside the verified library.
use vstd::prelude::*;
use crate::flv::{Demuxer, Event, EventView, flv_events, law_stream_events_well_formed, event_well_formed};
use crate::mpegts::{
    Muxer, MuxerView, mux_wf, video_config_spec, video_frame_spec, audio_config_spec,
    audio_frame_spec, emit_tables_spec, ts_payloads, ts_random_access, ts_packet_headers,
    law_video_frame_packets, pes_spec, aud_nalu, PID_VIDEO, STREAM_ID_VIDEO,
};

verus! {

/// Kind of a flat event record.
#[derive(Clone, Copy, Debug, PartialEq, Eq, Structural)]
pub enum EventKind {
    NoEvent,
    VideoConfig,
    VideoFrame,
    AudioConfig,
    AudioFrame,
    Error,
}

pub open spec fn kind_code_spec(k: EventKind) -> u32 {
    match k {
        EventKind::NoEvent => 0,
        EventKind::VideoConfig => 1,
        EventKind::VideoFrame => 2,
        EventKind::AudioConfig => 3,
        EventKind::AudioFrame => 4,
        EventKind::Error => 99,
    }
}

impl EventKind {
    /// The value of this kind in the C interface.
    pub fn code(&self) -> (c: u32)
        ensures
            c == kind_code_spec(*self),
    {
        match self {
            EventKind::NoEvent => 0,
            EventKind::VideoConfig => 1,
            EventKind::VideoFrame => 2,
            EventKind::AudioConfig => 3,
            EventKind::AudioFrame => 4,
            EventKind::Error => 99,
        }
    }
}

/// The plain fields of a flat event record (its data pointer is the host
/// interface's business): `data_len` is the length of the event's bytes.
#[derive(Clone, Copy, Debug, PartialEq, Eq, Structural)]
pub struct CEvent {
    pub kind: EventKind,
    pub data_len: usize,
    pub pts_ms: u32,
    pub is_keyframe: u8,
    /// width (VideoConfig only)
    pub width: u32,
    /// height (VideoConfig only)
    pub height: u32,
    /// AAC sample rate (AudioConfig only)
    pub sample_rate: u32,
    /// AAC channel count (AudioConfig only)
    pub channels: u8,
    /// AAC object type (AudioConfig only)
    pub object_type: u8,
}

/// The empty record: kind None, every field zero.
pub open spec fn empty_c_event() -> CEvent {
    CEvent {
        kind: EventKind::NoEvent,
        data_len: 0,
        pts_ms: 0,
        is_keyframe: 0,
        width: 0,
        height: 0,
        sample_rate: 0,
        channels: 0,
        object_type: 0,
    }
}

impl Default for CEvent {
    fn default() -> (c: Self)
        ensures
            c == empty_c_event(),
    {
        CEvent {
            kind: EventKind::NoEvent,
            data_len: 0,
            pts_ms: 0,
            is_keyframe: 0,
            width: 0,
            height: 0,
            sample_rate: 0,
            channels: 0,
            object_type: 0,
        }
    }
}

/// The flat record of an event: its kind, the length of its bytes, and the
/// fields of its variant; the rest zero. An error's message is not counted
/// here (the host interface passes it as a C string).
pub open spec fn c_event_spec(e: EventView) -> CEvent {
    let z = empty_c_event();
    match e {
        EventView::VideoConfig { annex_b, width, height } => CEvent {
            kind: EventKind::VideoConfig,
            data_len: annex_b.len() as usize,
            width,
            height,
            ..z
        },
        EventView::VideoFrame { annex_b, pts_ms, is_keyframe } => CEvent {
            kind: EventKind::VideoFrame,
            data_len: annex_b.len() as usize,
            pts_ms,
            is_keyframe: if is_keyframe { 1u8 } else { 0u8 },
            ..z
        },
        EventView::AudioConfig { config, sample_rate, channels, object_type } => CEvent {
            kind: EventKind::AudioConfig,
            data_len: config.len() as usize,
            sample_rate,
            channels,
            object_type,
            ..z
        },
        EventView::AudioFrame { data, pts_ms } => CEvent {
            kind: EventKind::AudioFrame,
            data_len: data.len() as usize,
            pts_ms,
            ..z
        },
        EventView::Error(_) => CEvent { kind: EventKind::Error, ..z },
    }
}

/// Fills a flat record from an event.
pub fn c_event(ev: &Event) -> (c: CEvent)
    ensures
        c == c_event_spec(ev@),
{
    let mut ev_c = CEvent::default();
    match ev {
        Event::VideoConfig { annex_b, width, height } => {
            ev_c.kind = EventKind::VideoConfig;
            ev_c.data_len = annex_b.len();
            ev_c.width = *width;
            ev_c.height = *height;
        },
        Event::VideoFrame { annex_b, pts_ms, is_keyframe } => {
            ev_c.kind = EventKind::VideoFrame;
            ev_c.data_len = annex_b.len();
            ev_c.pts_ms = *pts_ms;
            ev_c.is_keyframe = if *is_keyframe {
                1
            } else {
                0
            };
        },
        Event::AudioConfig { config, sample_rate, channels, object_type } => {
            ev_c.kind = EventKind::AudioConfig;
            ev_c.data_len = config.len();
            ev_c.sample_rate = *sample_rate;
            ev_c.channels = *channels;
            ev_c.object_type = *object_type;
        },
        Event::AudioFrame { data, pts_ms } => {
            ev_c.kind = EventKind::AudioFrame;
            ev_c.data_len = data.len();
            ev_c.pts_ms = *pts_ms;
        },
        Event::Error(_) => {
            ev_c.kind = EventKind::Error;
        },
    }
    ev_c
}

/// The muxer state after one demuxer event: configs and frames go to the
/// muxer, an error changes nothing.
pub open spec fn mux_event_spec(v: MuxerView, e: EventView) -> MuxerView {
    match e {
        EventView::VideoConfig { annex_b, .. } => video_config_spec(v, annex_b),
        EventView::VideoFrame { annex_b, pts_ms, is_keyframe } => video_frame_spec(
            v,
            annex_b,
            pts_ms,
            is_keyframe,
        ),
        EventView::AudioConfig { sample_rate, channels, object_type, .. } => audio_config_spec(
            v,
            sample_rate,
            channels,
            object_type,
        ),
        EventView::AudioFrame { data, pts_ms } => audio_frame_spec(v, data, pts_ms),
        EventView::Error(_) => v,
    }
}

/// The muxer state after a sequence of events, in order.
pub open spec fn mux_events_spec(v: MuxerView, es: Seq<EventView>) -> MuxerView
    decreases es.len(),
{
    if es.len() == 0 {
        v
    } else {
        mux_event_spec(mux_events_spec(v, es.drop_last()), es.last())
    }
}

/// Pumping an event changes the muxer exactly as pushing that event's
/// fields directly would; an error event changes nothing.
pub proof fn law_mux_event_is_push(v: MuxerView, e: EventView)
    ensures
        match e {
            EventView::VideoConfig { annex_b, .. } => mux_event_spec(v, e) == video_config_spec(
                v,
                annex_b,
            ),
            EventView::VideoFrame { annex_b, pts_ms, is_keyframe } => mux_event_spec(v, e)
                == video_frame_spec(v, annex_b, pts_ms, is_keyframe),
            EventView::AudioConfig { sample_rate, channels, object_type, .. } => mux_event_spec(
                v,
                e,
            ) == audio_config_spec(v, sample_rate, channels, object_type),
            EventView::AudioFrame { data, pts_ms } => mux_event_spec(v, e) == audio_frame_spec(
                v,
                data,
                pts_ms,
            ),
            EventView::Error(_) => mux_event_spec(v, e) == v,
        },
{
}

/// A pumped keyframe event (after a video config) goes out as a PES that
/// begins, after its 14-byte header, with the last video config's
/// parameter sets, on the video PID, whose first packet says random access.
pub proof fn law_pumped_keyframe(v: MuxerView, annex_b: Seq<u8>, pts_ms: u32)
    requires
        mux_wf(v),
        v.has_video_config,
    ensures
        ({
            let w = mux_event_spec(
                v,
                EventView::VideoFrame { annex_b, pts_ms, is_keyframe: true },
            );
            let t = emit_tables_spec(v, pts_ms).out;
            let added = w.out.subrange(t.len() as int, w.out.len() as int);
            &&& added.len() >= 188
            &&& ts_random_access(added)
            &&& ts_packet_headers(added, PID_VIDEO, v.cc[2], true, true)
            &&& ts_payloads(added).subrange(14, 14 + v.video_csd.len() as int) == v.video_csd
        }),
{
    law_video_frame_packets(v, annex_b, pts_ms, true);
    let w = video_frame_spec(v, annex_b, pts_ms, true);
    let t = emit_tables_spec(v, pts_ms).out;
    let added = w.out.subrange(t.len() as int, w.out.len() as int);
    let pes = pes_spec(STREAM_ID_VIDEO, pts_ms, v.video_csd + aud_nalu() + annex_b, true);
    assert(pes.len() >= 14);
    assert(ts_payloads(Seq::<u8>::empty()) =~= Seq::<u8>::empty());
    assert(pes.subrange(14, 14 + v.video_csd.len() as int) =~= v.video_csd);
}

/// Hands one demuxer event to the muxer.
pub fn mux_event(m: &mut Muxer, ev: &Event)
    requires
        mux_wf(old(m)@),
        ev@ matches EventView::AudioFrame { data, .. } ==> data.len() + 7 <= usize::MAX,
    ensures
        mux_wf(final(m)@),
        final(m)@ == mux_event_spec(old(m)@, ev@),
{
    match ev {
        Event::VideoConfig { annex_b, .. } => m.push_video_config(annex_b.as_slice()),
        Event::VideoFrame { annex_b, pts_ms, is_keyframe } => {
            m.push_video_frame(annex_b.as_slice(), *pts_ms, *is_keyframe);
        },
        Event::AudioConfig { sample_rate, channels, object_type, .. } => {
            m.push_audio_config(*sample_rate, *channels, *object_type);
        },
        Event::AudioFrame { data, pts_ms } => m.push_audio_frame(data.as_slice(), *pts_ms),
        Event::Error(_) => {},
    }
}

/// Drains the demuxer's queued events into the muxer, in order, stopping
/// at an error event, whose message it returns.
pub fn pump_events(d: &mut Demuxer, m: &mut Muxer) -> (r: Option<String>)
    requires
        old(d).wf(),
        mux_wf(old(m)@),
    ensures
        final(d).wf(),
        mux_wf(final(m)@),
        final(d).stream() == old(d).stream(),
        final(d).delivered() + final(d).queued() == old(d).delivered() + old(d).queued(),
        ({
            let k = (final(d).delivered().len() - old(d).delivered().len()) as int;
            let taken = old(d).queued().take(k);
            &&& 0 <= k <= old(d).queued().len()
            &&& forall|i: int| 0 <= i < k - 1 ==> !(#[trigger] taken[i] is Error)
            &&& match r {
                None => {
                    &&& k == old(d).queued().len()
                    &&& (k > 0 ==> !(taken[k - 1] is Error))
                    &&& final(m)@ == mux_events_spec(old(m)@, taken)
                },
                Some(msg) => {
                    &&& k > 0
                    &&& taken[k - 1] == EventView::Error(msg@)
                    &&& final(m)@ == mux_events_spec(old(m)@, taken.drop_last())
                },
            }
        }),
{
    let ghost q0 = d.queued();
    let ghost n0 = d.delivered().len();
    let ghost m0 = m@;
    proof {
        d.lemma_events_of_stream();
        law_stream_events_well_formed(d.stream());
        assert forall|i: int| 0 <= i < q0.len() implies #[trigger] event_well_formed(q0[i]) by {
            assert(q0[i] == (d.delivered() + q0)[n0 + i]);
        }
    }
    loop
        invariant
            d.wf(),
            mux_wf(m@),
            d.stream() == old(d).stream(),
            q0 == old(d).queued(),
            n0 == old(d).delivered().len(),
            m0 == old(m)@,
            d.delivered() + d.queued() == old(d).delivered() + q0,
            d.delivered().len() >= n0,
            d.delivered().len() - n0 <= q0.len(),
            d.queued() == q0.skip(d.delivered().len() - n0),
            forall|i: int| 0 <= i < d.delivered().len() - n0 ==> !(#[trigger] q0[i] is Error),
            m@ == mux_events_spec(m0, q0.take(d.delivered().len() - n0)),
            forall|i: int| 0 <= i < q0.len() ==> #[trigger] event_well_formed(q0[i]),
        decreases d.queued().len(),
    {
        let ghost k = d.delivered().len() - n0;
        let ev = match d.next_event() {
            Some(ev) => ev,
            None => {
                assert(q0.take(k) =~= q0);
                return None;
            },
        };
        assert(ev@ == q0[k]);
        match ev {
            Event::Error(msg) => {
                assert(q0.take(k + 1).drop_last() =~= q0.take(k));
                return Some(msg);
            },
            _ => {},
        }
        assert(event_well_formed(q0[k]));
        mux_event(m, &ev);
        assert(q0.take(k + 1).drop_last() =~= q0.take(k));
        assert(d.queued() =~= q0.skip(k + 1));
    }
}

} // verus!
