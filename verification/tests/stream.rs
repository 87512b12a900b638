use accumulable::stream::{
    Accumulate, Accumulated, AccumulatedState, PartiallyAccumulate, PartiallyAccumulated, Progress,
};
use accumulable::{Accumulable, MaybeAccumulable};

#[derive(Clone, Copy, Debug, PartialEq)]
pub struct Volume(u64);

impl Accumulable for Volume {
    fn absorbed(self, rhs: Self) -> Self {
        Volume(self.0 + rhs.0)
    }

    fn accumulate_from(&mut self, rhs: &Self) {
        *self = Volume(self.0 + rhs.0);
    }
}

#[derive(Clone, Copy, Debug, PartialEq)]
pub enum VolumeSize<const N: u64> {
    Large(Volume),
    Small(Volume),
}

impl<const N: u64> VolumeSize<N> {
    pub fn new(volume: Volume) -> Self {
        if volume.0 >= N {
            Self::Large(volume)
        } else {
            Self::Small(volume)
        }
    }

    pub fn volume_value(&self) -> Volume {
        match self {
            Self::Large(x) | Self::Small(x) => *x,
        }
    }
}

impl<const N: u64> Accumulable for VolumeSize<N> {
    fn absorbed(self, rhs: Self) -> Self {
        VolumeSize::new(Volume(self.volume_value().0 + rhs.volume_value().0))
    }

    fn accumulate_from(&mut self, rhs: &Self) {
        *self = VolumeSize::new(Accumulable::accumulate(self.volume_value(), &rhs.volume_value()))
    }
}

impl<const N: u64> MaybeAccumulable for VolumeSize<N> {
    fn accepts(self, _rhs: Self) -> bool {
        matches!(self, VolumeSize::Small(_))
    }

    fn joined(self, rhs: Self) -> Self {
        self.absorbed(rhs)
    }

    fn maybe_accumulate_from(&mut self, rhs: &Self) -> bool {
        match self {
            VolumeSize::Small(_) => {
                self.accumulate_from(rhs);

                true
            }
            _ => false,
        }
    }
}

type VolumeSize100 = VolumeSize<100>;

/// Polls the reducer to completion over a source that is always ready.
fn complete(mut reducer: Accumulated<std::vec::IntoIter<Volume>, Volume>) -> Option<Volume> {
    loop {
        let fetched = reducer.source_mut().next();
        match reducer.poll(fetched) {
            Progress::Pending => {}
            Progress::Ready(total) => {
                assert!(reducer.is_terminated());
                return total;
            }
        }
    }
}

/// Polls the splitter to its end over a source that is always ready.
fn collect(
    mut split: PartiallyAccumulated<std::vec::IntoIter<VolumeSize100>, VolumeSize100>,
) -> Vec<VolumeSize100> {
    let mut outputs = Vec::new();
    while !split.is_terminated() {
        let fetched = split.source_mut().next();
        match split.poll_next(fetched) {
            Progress::Pending => {}
            Progress::Ready(Some(lhs)) => outputs.push(lhs),
            Progress::Ready(None) => {}
        }
    }
    outputs
}

#[test]
fn stream_test_accumulate_zero() {
    let volumes: Vec<Volume> = vec![];

    assert_eq!(complete(volumes.into_iter().accumulate::<Volume>()), None);
}

#[test]
fn stream_test_accumulate_one() {
    let volumes = vec![Volume(10)];

    assert_eq!(
        complete(volumes.into_iter().accumulate::<Volume>()).unwrap(),
        Volume(10)
    );
}

#[test]
fn stream_test_accumulate() {
    let volumes = vec![Volume(10), Volume(15), Volume(20), Volume(25), Volume(30)];

    assert_eq!(
        complete(volumes.into_iter().accumulate::<Volume>()).unwrap(),
        Volume(100)
    );
}

#[test]
fn stream_partially_accumulate_zero() {
    let volumes: Vec<VolumeSize100> = vec![];

    let partially_accumulated = collect(volumes.into_iter().partially_accumulate::<VolumeSize100>());

    assert_eq!(partially_accumulated, vec![])
}

#[test]
fn stream_partially_accumulate_one() {
    let volumes = vec![VolumeSize100::new(Volume(60))];

    let partially_accumulated = collect(volumes.into_iter().partially_accumulate::<VolumeSize100>());

    assert_eq!(partially_accumulated, vec![VolumeSize100::Small(Volume(60))])
}

#[test]
fn stream_partially_accumulate() {
    let volumes = vec![
        VolumeSize100::new(Volume(60)),
        VolumeSize100::new(Volume(30)),
        VolumeSize100::new(Volume(15)),
        //
        VolumeSize100::new(Volume(40)),
        VolumeSize100::new(Volume(70)),
        //
        VolumeSize100::new(Volume(80)),
        VolumeSize100::new(Volume(10)),
        VolumeSize100::new(Volume(5)),
        VolumeSize100::new(Volume(3)),
        VolumeSize100::new(Volume(2)),
        //
        VolumeSize100::new(Volume(1)),
        VolumeSize100::new(Volume(1)),
    ];

    let partially_accumulated = collect(volumes.into_iter().partially_accumulate::<VolumeSize100>());

    assert_eq!(
        partially_accumulated,
        vec![
            VolumeSize100::Large(Volume(105)),
            VolumeSize100::Large(Volume(110)),
            VolumeSize100::Large(Volume(100)),
            VolumeSize100::Small(Volume(2))
        ]
    )
}

#[test]
fn consume_hands_out_the_open_accumulator_and_ends() {
    let mut state = AccumulatedState::Accumulable(Volume(4));
    assert_eq!(state.consume(), Some(Volume(4)));
    assert!(state.is_consumed());
    assert_eq!(state.consume(), None);
    assert!(state.is_consumed());

    let mut idle: AccumulatedState<Volume> = AccumulatedState::Uninit;
    assert_eq!(idle.consume(), None);
    assert!(idle.is_consumed());
}

#[test]
fn reaccumulable_swaps_the_open_accumulator() {
    let mut state = AccumulatedState::Accumulable(Volume(4));
    assert_eq!(state.reaccumulable(Volume(9)), Some(Volume(4)));
    assert!(matches!(state, AccumulatedState::Accumulable(Volume(9))));

    let mut idle: AccumulatedState<Volume> = AccumulatedState::Uninit;
    assert_eq!(idle.reaccumulable(Volume(1)), None);
    assert!(matches!(idle, AccumulatedState::Accumulable(Volume(1))));

    let mut ended: AccumulatedState<Volume> = AccumulatedState::Consumed;
    assert_eq!(ended.reaccumulable(Volume(2)), None);
    assert!(matches!(ended, AccumulatedState::Accumulable(Volume(2))));
}

#[test]
fn reinit_closes_the_open_run() {
    let mut state = AccumulatedState::Accumulable(Volume(4));
    assert_eq!(state.reinit(), Some(Volume(4)));
    assert!(matches!(state, AccumulatedState::Uninit));
    assert!(!state.is_consumed());
    assert_eq!(state.reinit(), None);
    assert!(matches!(state, AccumulatedState::Uninit));
}

#[test]
fn is_consumed_tells_the_terminal_state_only() {
    assert!(!AccumulatedState::<Volume>::Uninit.is_consumed());
    assert!(!AccumulatedState::Accumulable(Volume(1)).is_consumed());
    assert!(AccumulatedState::<Volume>::Consumed.is_consumed());
}

#[test]
fn reducer_is_pending_while_items_come() {
    let mut state: AccumulatedState<Volume> = AccumulatedState::Uninit;

    assert_eq!(state.poll_accumulate(Some(Volume(10))), Progress::Pending);
    assert!(matches!(state, AccumulatedState::Accumulable(Volume(10))));
    assert_eq!(state.poll_accumulate(Some(Volume(15))), Progress::Pending);
    assert!(matches!(state, AccumulatedState::Accumulable(Volume(25))));
    assert_eq!(
        state.poll_accumulate(None::<Volume>),
        Progress::Ready(Some(Volume(25)))
    );
    assert!(state.is_consumed());
}

#[test]
fn splitter_steps_through_its_states() {
    let mut state: AccumulatedState<VolumeSize100> = AccumulatedState::Uninit;

    // The first item opens a run.
    assert_eq!(
        state.poll_split(Some(VolumeSize100::new(Volume(60)))),
        Progress::Pending
    );
    assert!(matches!(
        state,
        AccumulatedState::Accumulable(VolumeSize::Small(Volume(60)))
    ));
    // An accepted item joins the run.
    assert_eq!(
        state.poll_split(Some(VolumeSize100::new(Volume(50)))),
        Progress::Pending
    );
    assert!(matches!(
        state,
        AccumulatedState::Accumulable(VolumeSize::Large(Volume(110)))
    ));
    // A rejected item closes the run and opens the next one.
    assert_eq!(
        state.poll_split(Some(VolumeSize100::new(Volume(7)))),
        Progress::Ready(Some(VolumeSize100::Large(Volume(110))))
    );
    assert!(matches!(
        state,
        AccumulatedState::Accumulable(VolumeSize::Small(Volume(7)))
    ));
    // The end of the source closes the open run.
    assert_eq!(
        state.poll_split(None::<VolumeSize100>),
        Progress::Ready(Some(VolumeSize100::Small(Volume(7))))
    );
    assert!(matches!(state, AccumulatedState::Uninit));
    // The end of the source with no run open ends the splitter.
    assert_eq!(state.poll_split(None::<VolumeSize100>), Progress::Ready(None));
    assert!(state.is_consumed());
}

#[test]
fn terminated_splitter_stays_terminated() {
    let volumes = vec![VolumeSize100::new(Volume(60))];
    let mut split = volumes.into_iter().partially_accumulate::<VolumeSize100>();

    assert!(!split.is_terminated());
    let first = split.source_mut().next();
    assert_eq!(split.poll_next(first), Progress::Pending);
    let end = split.source_mut().next();
    assert_eq!(
        split.poll_next(end),
        Progress::Ready(Some(VolumeSize100::Small(Volume(60))))
    );
    assert!(!split.is_terminated());
    let end = split.source_mut().next();
    assert_eq!(split.poll_next(end), Progress::Ready(None));
    assert!(split.is_terminated());
    assert!(split.is_terminated());
    assert!(split.is_terminated());
}

#[test]
fn parts_round_trip() {
    let split: PartiallyAccumulated<Vec<u8>, Volume> = PartiallyAccumulated::new(vec![1, 2, 3]);
    let (source, state) = split.into_parts();
    assert_eq!(source, vec![1, 2, 3]);
    assert!(matches!(state, AccumulatedState::Uninit));

    let split = PartiallyAccumulated::from_parts(source, AccumulatedState::Accumulable(Volume(5)));
    assert!(!split.is_terminated());
    let (source, state) = split.into_parts();
    assert_eq!(source, vec![1, 2, 3]);
    assert!(matches!(state, AccumulatedState::Accumulable(Volume(5))));

    let reducer = Accumulated::from_parts(7u8, AccumulatedState::<Volume>::Consumed);
    assert!(reducer.is_terminated());
    let (source, state) = reducer.into_parts();
    assert_eq!(source, 7);
    assert!(state.is_consumed());
}
