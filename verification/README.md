# rrt_sim

A robot-exploration simulator driven by a rapidly-exploring random tree
(RRT), whose core is written in Verus and proved against its contracts.

- `src/` is the verified library: the pixel grid and its shapes, the
  simulator's frame-buffer rules and command protocol, the environment's
  obstacles, the RRT's tree bookkeeping, the explorer's navigation
  decisions, the pruning rewards of the training loop, the
  Weisfeiler-Lehman labels of the tree, and the tree and image encodings
  handed to other programs.
- `tests/` exercises the library on concrete values.
- `app/` is the program around it: floating-point geometry and robot
  motion, windows, files, sockets, shared memory, the Python bridge and
  the training loop.
