# walker_rl

A walker made of rigid segments learns to walk by proximal policy optimization.

The library under `src/` is written in Verus and verified. It lays out a body as particles, edges and
joints, places and moves walkers, shows them to an agent, ends their episodes, draws actions, records
rollouts, estimates advantages, cuts samples into minibatches, and schedules the training.

Floating-point numbers are held by their bit pattern. The library compares, negates, screens and limits
them by it. What is computed from them comes in through the trait `Arithmetic`: the sum, the difference, the
product and the quotient of two numbers, a few functions of one, and the total and the inner product of
lists. Nothing is assumed of it. A contract says what comes out for every record of `Operations` that
describes the arithmetic; there is one where its results depend on their arguments alone. What does not
depend on the arithmetic (shapes, choices, the order of samples, what is copied from where) is stated
without it. Laws about the numbers themselves ask something of the operations: that they treat both signs
alike, that they are faithful, as those of IEEE 754 are, or that they are exact on the numbers that occur.

Four more traits bring in what is not arithmetic; nothing is assumed of them either, and a contract says
what is handed to them and what becomes of what they give: `Chance` draws random numbers, `Policy` and
`Layers` apply the networks of an agent, and `Learner` takes a step down the gradient of its loss.

The programs under `app/` implement these traits on the machine and on the tensors of `burn`. They also
hold the loss, which is differentiated through, and what is read, written and drawn:

- `train` trains an agent and saves it to `agent.bin`;
- `viz` shows the agent in a window, steered by the arrow keys.

| module | what it holds |
| --- | --- |
| `single`, `numbers`, `rounding`, `fidelity` | single-precision numbers: their order, the constants, whole numbers, what may be asked of operations on them |
| `arithmetic`, `lanes`, `field`, `joining` | computing with numbers, lists of them, and vectors of the plane |
| `math`, `contact` | angles, the limits of the joints, the ground |
| `physics`, `morphology` | bodies and settings |
| `traversal`, `layout`, `incidence`, `walker` | the skeleton of a body |
| `motion`, `step` | placing and moving walkers |
| `momentum`, `displacement` | what a step leaves unchanged |
| `observation`, `env` | seeing and judging walkers |
| `model`, `statistics`, `pooling`, `distribution`, `decision` | the agent and how it acts |
| `rollout`, `advantage`, `preparation`, `minibatch`, `update` | what is learned from |
| `ppo`, `report`, `viz` | the schedule of the training, what is reported and shown |

`tests/` runs the library on concrete values.
